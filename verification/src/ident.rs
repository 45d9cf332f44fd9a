//! Identifiers: the metadata text writes them with dashes, the binary
//! header without.
use vstd::prelude::*;
use vstd::string::StrSliceExecFns;

verus! {

/// The characters of `s` without the dashes.
pub open spec fn strip_dashes(s: Seq<char>) -> Seq<char>
    decreases s.len(),
{
    if s.len() == 0 {
        s
    } else if s.last() == '-' {
        strip_dashes(s.drop_last())
    } else {
        strip_dashes(s.drop_last()).push(s.last())
    }
}

/// What is left of the first `k` characters begins what is left of all.
pub proof fn lemma_strip_prefix(s: Seq<char>, k: int)
    requires
        0 <= k <= s.len(),
    ensures
        strip_dashes(s.take(k)).len() <= strip_dashes(s).len(),
        strip_dashes(s.take(k)) == strip_dashes(s).take(strip_dashes(s.take(k)).len() as int),
    decreases s.len(),
{
    if k == s.len() {
        assert(s.take(k) =~= s);
        assert(strip_dashes(s).take(strip_dashes(s).len() as int) =~= strip_dashes(s));
    } else {
        assert(s.drop_last().take(k) =~= s.take(k));
        lemma_strip_prefix(s.drop_last(), k);
        let part = strip_dashes(s.take(k));
        let most = strip_dashes(s.drop_last());
        assert(strip_dashes(s).take(part.len() as int) =~= most.take(part.len() as int));
    }
}

/// Tells whether `id`, stripped of its dashes, is `ident`.
pub fn id_matches(id: &str, ident: &str) -> (r: bool)
    ensures
        r == (strip_dashes(id@) == ident@),
{
    let n: usize = id.unicode_len();
    let m: usize = ident.unicode_len();
    let mut i: usize = 0;
    let mut j: usize = 0;
    proof {
        assert(id@.take(0) =~= Seq::<char>::empty());
        assert(ident@.take(0) =~= Seq::<char>::empty());
    }
    while i < n
        invariant
            n == id@.len(),
            m == ident@.len(),
            i <= n,
            j <= m,
            strip_dashes(id@.take(i as int)) == ident@.take(j as int),
        decreases n - i,
    {
        let c: char = id.get_char(i);
        proof {
            assert(id@.take(i + 1).drop_last() =~= id@.take(i as int));
            assert(id@.take(i + 1).last() == c);
        }
        if c != '-' {
            if j >= m || ident.get_char(j) != c {
                proof {
                    let part = strip_dashes(id@.take(i + 1));
                    assert(part == ident@.take(j as int).push(c));
                    lemma_strip_prefix(id@, i + 1);
                    if strip_dashes(id@) == ident@ {
                        assert(ident@.take(part.len() as int)[j as int] == c);
                    }
                }
                return false;
            }
            proof {
                assert(ident@.take(j as int).push(c) =~= ident@.take(j + 1));
            }
            j = j + 1;
        }
        i = i + 1;
    }
    proof {
        assert(id@.take(n as int) =~= id@);
        if j == m {
            assert(ident@.take(m as int) =~= ident@);
        }
    }
    j == m
}

} // verus!
