//! The alphabet indexer: extract the distinct symbols of a sequence in
//! ascending code-point order, map each symbol to its canonical index, and
//! rewrite a sequence as a vector of those indices.

use vstd::prelude::*;

verus! {

/// Some position of `s` holds a symbol with code point `t`.
pub open spec fn has_code(s: Seq<char>, t: int) -> bool {
    exists|u: int| 0 <= u < s.len() && (#[trigger] s[u]) as int == t
}

/// The distinct symbols of `a`, in ascending code-point order. Symbols must
/// come from the supported code-point range.
#[verifier::loop_isolation(false)]
pub fn extract_sigma(a: &Vec<char>) -> (sigma: Vec<char>)
    requires
        forall|i: int| 0 <= i < a@.len() ==> 0 <= ((#[trigger] a@[i]) as int) < 255,
    ensures
        forall|i: int, j: int|
            0 <= i < j < sigma@.len() ==> (sigma@[i] as int) < (sigma@[j] as int),
        forall|c: char| #[trigger] sigma@.contains(c) <==> a@.contains(c),
        forall|t: int| 0 <= t < sigma@.len() ==> 0 <= ((#[trigger] sigma@[t]) as int) < 255,
{
    let mut seen: Vec<bool> = Vec::new();
    let mut k: usize = 0;
    while k < 255
        invariant
            k <= 255,
            seen@.len() == k,
            forall|t: int| 0 <= t < k ==> !seen@[t],
        decreases 255 - k,
    {
        seen.push(false);
        k = k + 1;
    }
    let n = a.len();
    let mut i: usize = 0;
    while i < n
        invariant
            i <= n,
            n == a@.len(),
            seen@.len() == 255,
            forall|t: int| 0 <= t < 255 ==> (seen@[t] <==> has_code(a@.take(i as int), t)),
        decreases n - i,
    {
        let c = a[i];
        proof {
            assert(0 <= (a@[i as int] as int) < 255);
        }
        let idx = c as usize;
        proof {
            assert(idx as int == c as int);
        }
        seen[idx] = true;
        proof {
            assert(idx as int == c as int);
            let pre = a@.take(i as int);
            let post = a@.take(i as int + 1);
            assert(post[i as int] == a@[i as int]);
            assert forall|t: int| 0 <= t < 255 implies (seen@[t] <==> has_code(post, t)) by {
                if seen@[t] {
                    if t == c as int {
                        assert(post[i as int] as int == t);
                        assert(has_code(post, t));
                    } else {
                        let u = choose|u: int| 0 <= u < pre.len() && (#[trigger] pre[u]) as int
                            == t;
                        assert(pre[u] == a@[u]);
                        assert(post[u] == a@[u]);
                        assert(post[u] as int == t);
                        assert(has_code(post, t));
                    }
                } else {
                    assert(t != c as int);
                    if has_code(post, t) {
                        let u = choose|u: int| 0 <= u < post.len() && (#[trigger] post[u]) as int
                            == t;
                        assert(u < i as int);
                        assert(post[u] == a@[u]);
                        assert(pre[u] == a@[u]);
                        assert(pre[u] as int == t);
                        assert(has_code(pre, t));
                    }
                }
            }
        }
        i = i + 1;
    }
    proof {
        assert(a@.take(n as int) =~= a@);
    }
    let mut sigma: Vec<char> = Vec::new();
    let mut x: usize = 0;
    while x < 255
        invariant
            x <= 255,
            seen@.len() == 255,
            forall|t: int| 0 <= t < 255 ==> (seen@[t] <==> has_code(a@, t)),
            forall|i2: int, j2: int|
                0 <= i2 < j2 < sigma@.len() ==> (sigma@[i2] as int) < (sigma@[j2] as int),
            forall|t: int| 0 <= t < sigma@.len() ==> 0 <= ((#[trigger] sigma@[t]) as int) < x,
            forall|t: int| 0 <= t < sigma@.len() ==> a@.contains(#[trigger] sigma@[t]),
            forall|c: char| 0 <= (c as int) < x && a@.contains(c) ==> sigma@.contains(c),
        decreases 255 - x,
    {
        if seen[x] {
            let c = (x as u8) as char;
            proof {
                assert(c as int == x as int);
                let u = choose|u: int| 0 <= u < a@.len() && (#[trigger] a@[u]) as int == x as int;
                assert(a@[u] == c);
                assert(a@.contains(c));
            }
            let ghost old_sigma = sigma@;
            sigma.push(c);
            proof {
                assert forall|cc: char| 0 <= (cc as int) < x + 1 && a@.contains(cc) implies sigma@
                    .contains(cc) by {
                    if (cc as int) < x {
                        assert(old_sigma.contains(cc));
                        let s = choose|s: int| 0 <= s < old_sigma.len() && old_sigma[s] == cc;
                        assert(sigma@[s] == cc);
                    } else {
                        assert(cc as int == x as int);
                        assert(cc == c);
                        assert(sigma@[sigma@.len() - 1] == cc);
                    }
                }
            }
        } else {
            proof {
                assert forall|cc: char| 0 <= (cc as int) < x + 1 && a@.contains(cc) implies sigma@
                    .contains(cc) by {
                    if (cc as int) < x {
                    } else {
                        assert(cc as int == x as int);
                        let u = choose|u: int| 0 <= u < a@.len() && a@[u] == cc;
                        assert(a@[u] as int == x as int);
                        assert(has_code(a@, x as int));
                        assert(false);
                    }
                }
            }
        }
        x = x + 1;
    }
    proof {
        assert(x == 255);
        assert forall|c: char| #[trigger] sigma@.contains(c) implies a@.contains(c) by {
            let s = choose|s: int| 0 <= s < sigma@.len() && sigma@[s] == c;
        }
        assert forall|c: char| a@.contains(c) implies sigma@.contains(c) by {
            let u = choose|u: int| 0 <= u < a@.len() && a@[u] == c;
            assert(a@[u] == c);
            assert(0 <= (c as int) < 255);
        }
    }
    sigma
}

/// A mapping from symbols to canonical indices: symbol `keys[i]` is mapped
/// to index `i`. Well-formed when no key repeats.
pub struct CharIndexMap {
    pub keys: Vec<char>,
}

impl CharIndexMap {
    /// No key occurs twice.
    pub open spec fn wf(self) -> bool {
        forall|i: int, j: int|
            0 <= i < self.keys@.len() && 0 <= j < self.keys@.len() && i != j
                ==> self.keys@[i] != self.keys@[j]
    }

    /// An empty mapping.
    pub fn new() -> (r: Self)
        ensures
            r.keys@.len() == 0,
            r.wf(),
    {
        CharIndexMap { keys: Vec::new() }
    }

    /// The canonical index of `c`: the position of `c` among the keys.
    pub open spec fn index_of(self, c: char) -> int {
        choose|i: int| 0 <= i < self.keys@.len() && self.keys@[i] == c
    }

    /// Look `c` up: its index when `c` is a key, nothing otherwise.
    #[verifier::loop_isolation(false)]
    pub fn get(&self, c: char) -> (r: Option<usize>)
        requires
            self.wf(),
        ensures
            match r {
                Some(ix) => self.keys@.contains(c) && ix as int == self.index_of(c)
                    && ix < self.keys@.len(),
                None => !self.keys@.contains(c),
            },
    {
        let n = self.keys.len();
        let mut i: usize = 0;
        while i < n
            invariant
                i <= n,
                n == self.keys@.len(),
                self.wf(),
                forall|t: int| 0 <= t < i ==> self.keys@[t] != c,
            decreases n - i,
        {
            if self.keys[i] == c {
                proof {
                    assert(self.keys@[i as int] == c);
                    assert(self.keys@.contains(c));
                    let w = self.index_of(c);
                    assert(self.keys@[w] == c);
                    assert(w == i as int);
                }
                return Some(i);
            }
            i = i + 1;
        }
        proof {
            assert forall|t: int| 0 <= t < self.keys@.len() implies self.keys@[t] != c by {}
        }
        None
    }
}

/// Define the canonical mapping of an alphabet: symbol `sigma[i]` maps to
/// index `i`. The alphabet must hold no repeated symbol.
#[verifier::loop_isolation(false)]
pub fn define_mapping(sigma: &Vec<char>, map: &mut CharIndexMap)
    requires
        forall|i: int, j: int|
            0 <= i < sigma@.len() && 0 <= j < sigma@.len() && i != j ==> sigma@[i] != sigma@[j],
    ensures
        final(map).keys@ == sigma@,
        final(map).wf(),
{
    let n = sigma.len();
    let mut keys: Vec<char> = Vec::new();
    let mut i: usize = 0;
    while i < n
        invariant
            i <= n,
            n == sigma@.len(),
            keys@.len() == i,
            forall|t: int| 0 <= t < i ==> keys@[t] == sigma@[t],
        decreases n - i,
    {
        keys.push(sigma[i]);
        i = i + 1;
    }
    proof {
        assert(keys@ =~= sigma@);
    }
    map.keys = keys;
}

/// Rewrite `s` into `v` as canonical indices: afterwards `v[k]` is the index
/// of `s[k]` under the mapping. Every symbol of `s` must be a key, and `v`
/// must already have the length of `s`.
#[verifier::loop_isolation(false)]
pub fn map_vec(map: &CharIndexMap, v: &mut Vec<usize>, s: &Vec<char>)
    requires
        map.wf(),
        old(v)@.len() == s@.len(),
        forall|k: int| 0 <= k < s@.len() ==> map.keys@.contains(#[trigger] s@[k]),
    ensures
        final(v)@.len() == s@.len(),
        forall|k: int|
            0 <= k < s@.len() ==> final(v)@[k] as int == map.index_of(#[trigger] s@[k]),
        forall|k: int| 0 <= k < s@.len() ==> (final(v)@[k] as int) < map.keys@.len(),
{
    let n = s.len();
    let mut i: usize = 0;
    while i < n
        invariant
            i <= n,
            n == s@.len(),
            map.wf(),
            v@.len() == s@.len(),
            forall|k: int| 0 <= k < s@.len() ==> map.keys@.contains(#[trigger] s@[k]),
            forall|k: int| 0 <= k < i ==> v@[k] as int == map.index_of(#[trigger] s@[k]),
            forall|k: int| 0 <= k < i ==> (v@[k] as int) < map.keys@.len(),
        decreases n - i,
    {
        let c = s[i];
        let r = map.get(c);
        match r {
            Some(ix) => {
                v[i] = ix;
            },
            None => {
                proof {
                    assert(map.keys@.contains(s@[i as int]));
                    assert(false);
                }
                unreached()
            },
        }
        i = i + 1;
    }
}

} // verus!
