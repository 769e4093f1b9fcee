//! Lane masks of the 16-lane vectors used by the CPU evaluation engine.
use vstd::prelude::*;

verus! {

/// Number of lanes in one vector.
pub const LANES: usize = 16;

/// A comparison mask: bit `i` is set when lane `i` passed.
#[derive(Clone, Copy, Debug, PartialEq, Eq)]
pub struct M(pub u16);

impl M {
    /// Every lane set.
    pub fn all_set() -> (m: M)
        ensures
            m.0 == 0xffff,
    {
        M(0xffff)
    }

    /// No lane set.
    pub fn none() -> (m: M)
        ensures
            m.0 == 0,
    {
        M(0)
    }

    /// Whether at least one lane is set.
    pub fn any(self) -> (b: bool)
        ensures
            b == (self.0 != 0),
    {
        self.0 != 0
    }
}

impl std::ops::BitAnd for M {
    type Output = M;

    /// Lanes set in both masks.
    fn bitand(self, o: M) -> (r: M)
        ensures
            r.0 == self.0 & o.0,
    {
        M(self.0 & o.0)
    }
}

impl vstd::std_specs::ops::BitAndSpecImpl for M {
    open spec fn obeys_bitand_spec() -> bool {
        true
    }

    open spec fn bitand_req(self, rhs: M) -> bool {
        true
    }

    open spec fn bitand_spec(self, rhs: M) -> M {
        M(self.0 & rhs.0)
    }
}

impl std::ops::BitOr for M {
    type Output = M;

    /// Lanes set in either mask.
    fn bitor(self, o: M) -> (r: M)
        ensures
            r.0 == self.0 | o.0,
    {
        M(self.0 | o.0)
    }
}

impl vstd::std_specs::ops::BitOrSpecImpl for M {
    open spec fn obeys_bitor_spec() -> bool {
        true
    }

    open spec fn bitor_req(self, rhs: M) -> bool {
        true
    }

    open spec fn bitor_spec(self, rhs: M) -> M {
        M(self.0 | rhs.0)
    }
}

impl std::ops::Not for M {
    type Output = M;

    /// Lanes not set in the mask.
    fn not(self) -> (r: M)
        ensures
            r.0 == !self.0,
    {
        M(!self.0)
    }
}

impl vstd::std_specs::ops::NotSpecImpl for M {
    open spec fn obeys_not_spec() -> bool {
        true
    }

    open spec fn not_req(self) -> bool {
        true
    }

    open spec fn not_spec(self) -> M {
        M(!self.0)
    }
}

/// Whether lane `i` of `m` is set.
pub open spec fn lane(m: M, i: u16) -> bool {
    (m.0 >> i) & 1 == 1
}

/// A lane is set in `a & b` exactly when it is set in both, in `a | b`
/// when it is set in either, and in `!a` when it is not set in `a`.
pub proof fn lemma_lane_ops(a: M, b: M, i: u16)
    requires
        i < 16,
    ensures
        lane(M(a.0 & b.0), i) == (lane(a, i) && lane(b, i)),
        lane(M(a.0 | b.0), i) == (lane(a, i) || lane(b, i)),
        lane(M(!a.0), i) == !lane(a, i),
{
    let x = a.0;
    let y = b.0;
    assert((((x & y) >> i) & 1 == 1) == (((x >> i) & 1 == 1) && ((y >> i) & 1 == 1))) by (bit_vector)
        requires
            i < 16,
    ;
    assert((((x | y) >> i) & 1 == 1) == (((x >> i) & 1 == 1) || ((y >> i) & 1 == 1))) by (bit_vector)
        requires
            i < 16,
    ;
    assert((((!x) >> i) & 1 == 1) == !((x >> i) & 1 == 1)) by (bit_vector)
        requires
            i < 16,
    ;
}

/// `any` holds exactly when some lane is set; `all_set` sets every lane and
/// `none` no lane.
pub proof fn lemma_any_lanes(m: M)
    ensures
        (m.0 != 0) == (exists|i: u16| i < 16 && #[trigger] lane(m, i)),
        forall|i: u16| i < 16 ==> #[trigger] lane(M(0xffff), i),
        forall|i: u16| i < 16 ==> !#[trigger] lane(M(0), i),
{
    let x = m.0;
    if x != 0 {
        assert(exists|i: u16| i < 16 && (x >> i) & 1 == 1) by {
            assert(x != 0 ==> ((x >> 0u16) & 1 == 1 || (x >> 1u16) & 1 == 1 || (x >> 2u16) & 1 == 1
                || (x >> 3u16) & 1 == 1 || (x >> 4u16) & 1 == 1 || (x >> 5u16) & 1 == 1 || (x
                >> 6u16) & 1 == 1 || (x >> 7u16) & 1 == 1 || (x >> 8u16) & 1 == 1 || (x >> 9u16)
                & 1 == 1 || (x >> 10u16) & 1 == 1 || (x >> 11u16) & 1 == 1 || (x >> 12u16) & 1
                == 1 || (x >> 13u16) & 1 == 1 || (x >> 14u16) & 1 == 1 || (x >> 15u16) & 1 == 1))
                by (bit_vector);
            if (x >> 0u16) & 1 == 1 {
                assert(lane(m, 0));
            } else if (x >> 1u16) & 1 == 1 {
                assert(lane(m, 1));
            } else if (x >> 2u16) & 1 == 1 {
                assert(lane(m, 2));
            } else if (x >> 3u16) & 1 == 1 {
                assert(lane(m, 3));
            } else if (x >> 4u16) & 1 == 1 {
                assert(lane(m, 4));
            } else if (x >> 5u16) & 1 == 1 {
                assert(lane(m, 5));
            } else if (x >> 6u16) & 1 == 1 {
                assert(lane(m, 6));
            } else if (x >> 7u16) & 1 == 1 {
                assert(lane(m, 7));
            } else if (x >> 8u16) & 1 == 1 {
                assert(lane(m, 8));
            } else if (x >> 9u16) & 1 == 1 {
                assert(lane(m, 9));
            } else if (x >> 10u16) & 1 == 1 {
                assert(lane(m, 10));
            } else if (x >> 11u16) & 1 == 1 {
                assert(lane(m, 11));
            } else if (x >> 12u16) & 1 == 1 {
                assert(lane(m, 12));
            } else if (x >> 13u16) & 1 == 1 {
                assert(lane(m, 13));
            } else if (x >> 14u16) & 1 == 1 {
                assert(lane(m, 14));
            } else {
                assert(lane(m, 15));
            }
        }
    } else {
        assert forall|i: u16| i < 16 implies !#[trigger] lane(m, i) by {
            assert(x == 0 ==> (x >> i) & 1 == 0) by (bit_vector);
        }
    }
    assert forall|i: u16| i < 16 implies #[trigger] lane(M(0xffff), i) by {
        assert(i < 16 ==> (0xffffu16 >> i) & 1u16 == 1u16) by (bit_vector);
    }
    assert forall|i: u16| i < 16 implies !#[trigger] lane(M(0), i) by {
        assert((0u16 >> i) & 1u16 == 0u16) by (bit_vector);
    }
}

} // verus!
