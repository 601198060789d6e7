//! Climb search: a climb matches a query when the query occurs inside
//! its name or inside the decimal text of its position in the
//! collection.

use vstd::prelude::*;

use crate::data::{Climb, KilterData};
use crate::decimal::{dec_rep, push_decimal};

verus! {

/// Does `needle` occur contiguously inside `hay`?
pub open spec fn is_substring(hay: Seq<char>, needle: Seq<char>) -> bool {
    exists|k: int|
        0 <= k && k + needle.len() <= hay.len() && #[trigger] hay.subrange(k, k + needle.len())
            == needle
}

/// Does `needle` stand at offset `k` of `hay`?
fn match_at(hay: &str, n: usize, needle: &str, m: usize, k: usize) -> (r: bool)
    requires
        n == hay@.len(),
        m == needle@.len(),
        k + m <= n,
    ensures
        r == (hay@.subrange(k as int, k + m) == needle@),
{
    let mut t: usize = 0;
    while t < m
        invariant
            n == hay@.len(),
            m == needle@.len(),
            k + m <= n,
            0 <= t <= m,
            forall|u: int| 0 <= u < t ==> hay@[k + u] == needle@[u],
        decreases m - t,
    {
        if hay.get_char(k + t) != needle.get_char(t) {
            proof {
                assert(hay@.subrange(k as int, k + m)[t as int] == hay@[k + t]);
            }
            return false;
        }
        t = t + 1;
    }
    proof {
        assert(hay@.subrange(k as int, k + m) =~= needle@);
    }
    true
}

/// Does `needle` occur anywhere inside `hay`?
pub fn contains_sub(hay: &str, needle: &str) -> (r: bool)
    ensures
        r == is_substring(hay@, needle@),
{
    let n = hay.unicode_len();
    let m = needle.unicode_len();
    if m > n {
        proof {
            assert(!is_substring(hay@, needle@));
        }
        return false;
    }
    if m == 0 {
        proof {
            assert(hay@.subrange(0, 0 + needle@.len() as int) =~= needle@);
            assert(is_substring(hay@, needle@));
        }
        return true;
    }
    let mut k: usize = 0;
    while k <= n - m
        invariant
            n == hay@.len(),
            m == needle@.len(),
            1 <= m <= n,
            0 <= k <= n - m + 1,
            forall|j: int| 0 <= j < k ==> #[trigger] hay@.subrange(j, j + m) != needle@,
        decreases n - k,
    {
        if match_at(hay, n, needle, m, k) {
            return true;
        }
        k = k + 1;
    }
    proof {
        assert(!is_substring(hay@, needle@)) by {
            if is_substring(hay@, needle@) {
                let j = choose|j: int|
                    0 <= j && j + needle@.len() <= hay@.len() && #[trigger] hay@.subrange(
                        j,
                        j + needle@.len(),
                    ) == needle@;
                assert(hay@.subrange(j, j + m) != needle@);
            }
        }
    }
    false
}

/// Does the climb at position `idx` match the query?
pub open spec fn climb_matches(c: Climb, idx: int, q: Seq<char>) -> bool {
    is_substring(c.name@, q) || is_substring(dec_rep(idx as nat), q)
}

/// The matching climbs from position `i` on, each with its position.
pub open spec fn search_from(climbs: Seq<Climb>, q: Seq<char>, i: int) -> Seq<(usize, Climb)>
    decreases climbs.len() - i,
{
    if i < 0 || i >= climbs.len() {
        Seq::empty()
    } else {
        (if climb_matches(climbs[i], i, q) {
            seq![(i as usize, climbs[i])]
        } else {
            Seq::empty()
        }) + search_from(climbs, q, i + 1)
    }
}

impl KilterData {
    /// All climbs matching the query, by name or by the decimal text of
    /// their position, each with its position, in collection order.
    pub fn search_by_name(&self, name: &str) -> (r: Vec<(usize, Climb)>)
        ensures
            r@ == search_from(self.climbs@, name@, 0),
    {
        let n = self.climbs.len();
        let mut acc: Vec<(usize, Climb)> = Vec::new();
        let mut i: usize = 0;
        while i < n
            invariant
                n == self.climbs@.len(),
                0 <= i <= n,
                search_from(self.climbs@, name@, 0) == acc@ + search_from(
                    self.climbs@,
                    name@,
                    i as int,
                ),
            decreases n - i,
        {
            let ghost pre = acc@;
            let hit = if contains_sub(self.climbs[i].name.as_str(), name) {
                true
            } else {
                let mut digits = String::new();
                push_decimal(&mut digits, i as u64);
                contains_sub(digits.as_str(), name)
            };
            if hit {
                acc.push((i, self.climbs[i].clone()));
                proof {
                    assert(acc@ =~= pre + seq![(i, self.climbs@[i as int])]);
                }
            }
            proof {
                assert(search_from(self.climbs@, name@, i as int) == (if climb_matches(
                    self.climbs@[i as int],
                    i as int,
                    name@,
                ) {
                    seq![(i, self.climbs@[i as int])]
                } else {
                    Seq::empty()
                }) + search_from(self.climbs@, name@, i + 1));
                assert(search_from(self.climbs@, name@, 0) =~= acc@ + search_from(
                    self.climbs@,
                    name@,
                    i + 1,
                ));
            }
            i = i + 1;
        }
        proof {
            assert(acc@ + search_from(self.climbs@, name@, n as int) =~= acc@);
        }
        acc
    }
}

} // verus!
