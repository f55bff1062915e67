//! Slash-delimited addresses of namespace nodes.
//!
//! A path is an ordered sequence of name components, resolved strictly from
//! the root to the leaf. Runs of slashes carry no components, so the empty
//! path and `/` both address the root.

use vstd::prelude::*;
use vstd::string::StrSliceExecFns;
use crate::error::Error;

verus! {

/// The number of leading characters before the first `/` (the length of the
/// leading component).
pub open spec fn component_len(s: Seq<char>) -> nat
    decreases s.len(),
{
    if s.len() == 0 {
        0
    } else if s[0] == '/' {
        0
    } else {
        1 + component_len(s.drop_first())
    }
}

/// The name components of a slash-delimited address, in order; slashes
/// delimit and never occur inside a component, and empty components do not
/// arise.
pub open spec fn split_slashes(s: Seq<char>) -> Seq<Seq<char>>
    decreases s.len(),
{
    if s.len() == 0 {
        Seq::empty()
    } else if s[0] == '/' {
        split_slashes(s.drop_first())
    } else {
        let k0 = 1 + component_len(s.drop_first());
        let k: int = if k0 <= s.len() {
            k0 as int
        } else {
            s.len() as int
        };
        seq![s.take(k)] + split_slashes(s.skip(k))
    }
}

/// The leading component runs up to position `k` exactly when no earlier
/// character is a slash and position `k` is a slash or the end.
proof fn lemma_component_len_at(s: Seq<char>, k: nat)
    requires
        k <= s.len(),
        forall|m: int| 0 <= m < k ==> s[m] != '/',
        k == s.len() || s[k as int] == '/',
    ensures
        component_len(s) == k,
    decreases k,
{
    if k > 0 {
        lemma_component_len_at(s.drop_first(), (k - 1) as nat);
    }
}

/// The views of a vector of owned components.
pub open spec fn component_views(s: Seq<String>) -> Seq<Seq<char>> {
    s.map_values(|c: String| c@)
}

/// A slash-delimited address: an ordered sequence of name components.
pub struct Path {
    /// The name components, root-most first.
    pub components: Vec<String>,
}

impl View for Path {
    type V = Seq<Seq<char>>;

    open spec fn view(&self) -> Seq<Seq<char>> {
        component_views(self.components@)
    }
}

impl Path {
    /// Parse a slash-delimited address into its name components. Every
    /// string parses; runs of slashes delimit and carry no components.
    pub fn new(s: &str) -> (r: Result<Path, Error>)
        ensures
            r matches Ok(p) && p@ == split_slashes(s@),
    {
        let n = s.unicode_len();
        let mut comps: Vec<String> = Vec::new();
        proof {
            assert(s@.skip(0) =~= s@);
            assert(component_views(comps@) + split_slashes(s@) =~= split_slashes(s@));
        }
        let mut i: usize = 0;
        while i < n
            invariant
                n == s@.len(),
                i <= n,
                split_slashes(s@) == component_views(comps@) + split_slashes(s@.skip(i as int)),
            decreases n - i,
        {
            if s.get_char(i) == '/' {
                proof {
                    assert(s@.skip(i as int).drop_first() =~= s@.skip(i as int + 1));
                    assert(s@.skip(i as int)[0] == s@[i as int]);
                }
                i += 1;
            } else {
                let mut j = i + 1;
                while j < n && s.get_char(j) != '/'
                    invariant
                        n == s@.len(),
                        i < j <= n,
                        forall|m: int| i <= m < j ==> s@[m] != '/',
                    decreases n - j,
                {
                    j += 1;
                }
                let ghost t = s@.skip(i as int);
                proof {
                    assert(forall|m: int| 0 <= m < j - i ==> t[m] == s@[m + i] && t[m] != '/');
                    if j < n {
                        assert(t[j - i] == s@[j as int]);
                    }
                    lemma_component_len_at(t, (j - i) as nat);
                }
                let comp = s.substring_char(i, j).to_owned();
                comps.push(comp);
                proof {
                    assert(t.take(j - i) =~= s@.subrange(i as int, j as int));
                    assert(t.skip(j - i) =~= s@.skip(j as int));
                    assert(component_views(comps@) =~= component_views(comps@.drop_last()).push(
                        s@.subrange(i as int, j as int),
                    ));
                    assert(split_slashes(s@) =~= component_views(comps@) + split_slashes(
                        s@.skip(j as int),
                    ));
                }
                i = j;
            }
        }
        proof {
            assert(s@.skip(n as int) =~= Seq::<char>::empty());
            assert(split_slashes(Seq::<char>::empty()) =~= Seq::<Seq<char>>::empty());
            assert(split_slashes(s@) =~= component_views(comps@));
        }
        Ok(Path { components: comps })
    }
}

} // verus!
