//! Collision-free naming for newly created entry files: try `name.ext`, then
//! `name (2).ext`, `name (3).ext`, and so on, until a path is found that no
//! file occupies.  The set of occupied paths is handed in as plain values, so
//! the search and its bound are ordinary verified logic.

use vstd::prelude::*;
use crate::text::chars_to_string;
use crate::text::digit_char;
use crate::text::push_all;
use crate::text::push_str_chars;
use crate::text::spec_digit;
use crate::text::lemma_digit_char_val;
use vstd::string::StrSliceExecFns;

verus! {

/// The character sequences of a list of strings.
pub open spec fn spec_strs_view(s: Seq<String>) -> Seq<Seq<char>> {
    s.map_values(|x: String| x@)
}

/// The decimal digits of `n`, most significant first.
pub open spec fn spec_dec_digits(n: nat) -> Seq<char>
    decreases n,
{
    if n < 10 {
        seq![spec_digit(n as int)]
    } else {
        spec_dec_digits(n / 10).push(spec_digit((n % 10) as int))
    }
}

/// A decimal rendering holds at least one digit.
pub proof fn lemma_dec_digits_len(n: nat)
    ensures
        spec_dec_digits(n).len() >= 1,
    decreases n,
{
    if n >= 10 {
        lemma_dec_digits_len(n / 10);
    }
}

/// Distinct values render to distinct digit sequences.
pub proof fn lemma_dec_digits_inj(a: nat, b: nat)
    requires
        a != b,
    ensures
        spec_dec_digits(a) != spec_dec_digits(b),
    decreases a + b,
{
    lemma_dec_digits_len(a);
    lemma_dec_digits_len(b);
    if a < 10 && b < 10 {
        lemma_digit_char_val(a as int);
        lemma_digit_char_val(b as int);
        assert(spec_dec_digits(a)[0] != spec_dec_digits(b)[0]);
    } else if a < 10 {
        lemma_dec_digits_len(b / 10);
        assert(spec_dec_digits(b).len() >= 2);
    } else if b < 10 {
        lemma_dec_digits_len(a / 10);
        assert(spec_dec_digits(a).len() >= 2);
    } else {
        if a % 10 != b % 10 {
            lemma_digit_char_val((a % 10) as int);
            lemma_digit_char_val((b % 10) as int);
            assert(spec_dec_digits(a).last() != spec_dec_digits(b).last());
        } else {
            assert(a / 10 != b / 10) by {
                vstd::arithmetic::div_mod::lemma_fundamental_div_mod(a as int, 10);
                vstd::arithmetic::div_mod::lemma_fundamental_div_mod(b as int, 10);
            }
            lemma_dec_digits_inj(a / 10, b / 10);
            if spec_dec_digits(a) == spec_dec_digits(b) {
                assert(spec_dec_digits(a).drop_last() == spec_dec_digits(b).drop_last());
                assert(spec_dec_digits(a).drop_last() =~= spec_dec_digits(a / 10));
                assert(spec_dec_digits(b).drop_last() =~= spec_dec_digits(b / 10));
            }
        }
    }
}

/// A file name inside its directory: the directory, a separator, the name,
/// except that an empty directory stands for the current one.
pub open spec fn spec_join_path(dir: Seq<char>, file: Seq<char>) -> Seq<char> {
    if dir.len() == 0 {
        file
    } else {
        dir + seq!['/'] + file
    }
}

/// The `k`-th candidate path: `name.ext` first, then `name (k).ext`.
pub open spec fn spec_candidate(dir: Seq<char>, name: Seq<char>, ext: Seq<char>, k: nat) -> Seq<
    char,
> {
    if k <= 1 {
        spec_join_path(dir, name + seq!['.'] + ext)
    } else {
        spec_join_path(
            dir,
            name + seq![' ', '('] + spec_dec_digits(k) + seq![')', '.'] + ext,
        )
    }
}

/// Distinct candidate numbers give distinct paths.
pub proof fn lemma_candidate_inj(dir: Seq<char>, name: Seq<char>, ext: Seq<char>, k1: nat, k2: nat)
    requires
        1 <= k1 < k2,
    ensures
        spec_candidate(dir, name, ext, k1) != spec_candidate(dir, name, ext, k2),
{
    lemma_dec_digits_len(k2);
    let c1 = spec_candidate(dir, name, ext, k1);
    let c2 = spec_candidate(dir, name, ext, k2);
    if k1 <= 1 {
        assert(c1.len() < c2.len());
    } else {
        lemma_dec_digits_len(k1);
        let d1 = spec_dec_digits(k1);
        let d2 = spec_dec_digits(k2);
        if c1 == c2 {
            assert(c1.len() == (if dir.len() == 0 { 0int } else { dir.len() + 1int }) + name.len()
                + 2 + d1.len() + 2 + ext.len());
            assert(c2.len() == (if dir.len() == 0 { 0int } else { dir.len() + 1int }) + name.len()
                + 2 + d2.len() + 2 + ext.len());
            assert(d1.len() == d2.len());
            assert forall|t: int| 0 <= t < d1.len() implies d1[t] == d2[t] by {
                assert(c1[dir.len() + if dir.len() == 0 { 0int } else { 1int } + name.len() + 2
                    + t] == d1[t]) by {
                    if dir.len() == 0 {
                        assert(c1[name.len() + 2 + t] == d1[t]);
                    }
                }
                assert(c2[dir.len() + if dir.len() == 0 { 0int } else { 1int } + name.len() + 2
                    + t] == d2[t]) by {
                    if dir.len() == 0 {
                        assert(c2[name.len() + 2 + t] == d2[t]);
                    }
                }
            }
            assert(d1 =~= d2);
            lemma_dec_digits_inj(k1, k2);
        }
    }
}

/// The first free candidate from `k` on, searching with bounded fuel.
pub open spec fn spec_resolve_from(
    occ: Seq<Seq<char>>,
    dir: Seq<char>,
    name: Seq<char>,
    ext: Seq<char>,
    k: nat,
    fuel: nat,
) -> Seq<char>
    decreases fuel,
{
    if fuel == 0 || !occ.contains(spec_candidate(dir, name, ext, k)) {
        spec_candidate(dir, name, ext, k)
    } else {
        spec_resolve_from(occ, dir, name, ext, k + 1, (fuel - 1) as nat)
    }
}

/// The path a new file is created under: the first candidate that no
/// existing path occupies.
pub open spec fn spec_resolve(
    occ: Seq<Seq<char>>,
    dir: Seq<char>,
    name: Seq<char>,
    ext: Seq<char>,
) -> Seq<char> {
    spec_resolve_from(occ, dir, name, ext, 1, occ.len() + 1)
}

/// Unfolding the search down to the first free candidate.
proof fn lemma_resolve_from_eq(
    occ: Seq<Seq<char>>,
    dir: Seq<char>,
    name: Seq<char>,
    ext: Seq<char>,
    i: nat,
    fuel: nat,
    k: nat,
)
    requires
        1 <= i <= k,
        k <= occ.len() + 1,
        fuel == occ.len() + 2 - i,
        forall|j: nat| i <= j < k ==> occ.contains(#[trigger] spec_candidate(dir, name, ext, j)),
        !occ.contains(spec_candidate(dir, name, ext, k)),
    ensures
        spec_resolve_from(occ, dir, name, ext, i, fuel) == spec_candidate(dir, name, ext, k),
    decreases k - i,
{
    if i == k {
    } else {
        assert(occ.contains(spec_candidate(dir, name, ext, i)));
        lemma_resolve_from_eq(occ, dir, name, ext, i + 1, (fuel - 1) as nat, k);
    }
}

/// While every candidate up to `k` is occupied, `k` cannot pass the number
/// of occupied paths: the candidates are pairwise distinct.
proof fn lemma_occupied_bound(
    occ: Seq<Seq<char>>,
    dir: Seq<char>,
    name: Seq<char>,
    ext: Seq<char>,
    k: nat,
)
    requires
        forall|j: nat| 1 <= j <= k ==> occ.contains(#[trigger] spec_candidate(dir, name, ext, j)),
    ensures
        k <= occ.len(),
{
    broadcast use vstd::seq_lib::seq_to_set_is_finite;
    broadcast use vstd::set::group_set_axioms;

    let cands = Seq::new(k, |j: int| spec_candidate(dir, name, ext, (j + 1) as nat));
    assert(cands.no_duplicates()) by {
        assert forall|a: int, b: int|
            0 <= a < cands.len() && 0 <= b < cands.len() && a != b implies cands[a] != cands[b] by {
            if a < b {
                lemma_candidate_inj(dir, name, ext, (a + 1) as nat, (b + 1) as nat);
            } else {
                lemma_candidate_inj(dir, name, ext, (b + 1) as nat, (a + 1) as nat);
            }
        }
    }
    cands.unique_seq_to_set();
    occ.lemma_cardinality_of_set();
    assert(cands.to_set().subset_of(occ.to_set())) by {
        assert forall|x: Seq<char>| cands.to_set().contains(x) implies occ.to_set().contains(
            x,
        ) by {
            let j = choose|j: int| 0 <= j < cands.len() && cands[j] == x;
            assert(occ.contains(spec_candidate(dir, name, ext, (j + 1) as nat)));
        }
    }
    vstd::set_lib::lemma_len_subset(cands.to_set(), occ.to_set());
}

/// The search from `k` never lands on an occupied path, as long as the fuel
/// covers the candidates that pigeonholing allows to be occupied.
proof fn lemma_resolve_from_free(
    occ: Seq<Seq<char>>,
    dir: Seq<char>,
    name: Seq<char>,
    ext: Seq<char>,
    k: nat,
    fuel: nat,
)
    requires
        1 <= k,
        fuel + k == occ.len() + 2,
        forall|j: nat| 1 <= j < k ==> occ.contains(#[trigger] spec_candidate(dir, name, ext, j)),
    ensures
        !occ.contains(spec_resolve_from(occ, dir, name, ext, k, fuel)),
    decreases fuel,
{
    if !occ.contains(spec_candidate(dir, name, ext, k)) {
    } else {
        if fuel == 0 {
            lemma_occupied_bound(occ, dir, name, ext, (k - 1) as nat);
        } else {
            lemma_resolve_from_free(occ, dir, name, ext, k + 1, (fuel - 1) as nat);
        }
    }
}

/// The resolved path is never one of the occupied paths.
pub proof fn lemma_resolve_free(occ: Seq<Seq<char>>, dir: Seq<char>, name: Seq<char>, ext: Seq<
    char,
>)
    ensures
        !occ.contains(spec_resolve(occ, dir, name, ext)),
{
    lemma_resolve_from_free(occ, dir, name, ext, 1, occ.len() + 1);
}

/// The decimal rendering of `n`.
fn dec_digits(n: u128) -> (r: Vec<char>)
    ensures
        r@ == spec_dec_digits(n as nat),
    decreases n,
{
    if n < 10 {
        let mut v: Vec<char> = Vec::new();
        v.push(digit_char(n as u32));
        proof {
            assert(v@ =~= spec_dec_digits(n as nat));
        }
        v
    } else {
        let mut v = dec_digits(n / 10);
        v.push(digit_char((n % 10) as u32));
        v
    }
}

/// The `k`-th candidate path as characters.
fn candidate_path(root: &str, name: &str, extension: &str, k: u128) -> (r: Vec<char>)
    requires
        k >= 1,
    ensures
        r@ == spec_candidate(root@, name@, extension@, k as nat),
{
    let mut file: Vec<char> = Vec::new();
    push_str_chars(&mut file, name);
    if k >= 2 {
        file.push(' ');
        file.push('(');
        let ds = dec_digits(k);
        push_all(&mut file, &ds);
        file.push(')');
    }
    file.push('.');
    push_str_chars(&mut file, extension);
    let mut out: Vec<char> = Vec::new();
    if root.unicode_len() > 0 {
        push_str_chars(&mut out, root);
        out.push('/');
    }
    push_all(&mut out, &file);
    proof {
        assert(out@ =~= spec_candidate(root@, name@, extension@, k as nat));
    }
    out
}

/// A file or directory name inside a directory, as a path string.
pub fn join_path(dir: &str, file: &str) -> (r: String)
    ensures
        r@ == spec_join_path(dir@, file@),
{
    let mut out: Vec<char> = Vec::new();
    if dir.unicode_len() > 0 {
        push_str_chars(&mut out, dir);
        out.push('/');
    }
    push_str_chars(&mut out, file);
    proof {
        assert(out@ =~= spec_join_path(dir@, file@));
    }
    chars_to_string(&out)
}

/// Whether some occupied path spells exactly these characters.
fn occupied_contains(occ: &Vec<String>, cand: &Vec<char>) -> (r: bool)
    ensures
        r == spec_strs_view(occ@).contains(cand@),
{
    let mut i: usize = 0;
    while i < occ.len()
        invariant
            i <= occ@.len(),
            forall|j: int| 0 <= j < i ==> spec_strs_view(occ@)[j] != cand@,
        decreases occ@.len() - i,
    {
        if crate::text::chars_eq_str(cand, occ[i].as_str()) {
            assert(spec_strs_view(occ@)[i as int] == cand@);
            return true;
        }
        i = i + 1;
    }
    proof {
        if spec_strs_view(occ@).contains(cand@) {
            let j = choose|j: int|
                0 <= j < spec_strs_view(occ@).len() && spec_strs_view(occ@)[j] == cand@;
        }
    }
    false
}

/// The path a newly created file goes under: `name.extension` inside `root`,
/// or the first numbered variant `name (k).extension` that no occupied path
/// claims.
pub fn number_existing(occupied: &Vec<String>, root: &str, name: &str, extension: &str) -> (r:
    String)
    ensures
        r@ == spec_resolve(spec_strs_view(occupied@), root@, name@, extension@),
        !spec_strs_view(occupied@).contains(r@),
{
    let ghost occ = spec_strs_view(occupied@);
    let n = occupied.len();
    proof {
        assert(occ.len() == occupied@.len());
    }
    let mut k: u128 = 1;
    let mut cand = candidate_path(root, name, extension, k);
    while occupied_contains(occupied, &cand)
        invariant
            1 <= k <= occ.len() + 1,
            occ == spec_strs_view(occupied@),
            occ.len() == occupied@.len(),
            occ.len() <= usize::MAX,
            cand@ == spec_candidate(root@, name@, extension@, k as nat),
            forall|j: nat|
                1 <= j < k ==> occ.contains(#[trigger] spec_candidate(root@, name@, extension@, j)),
        decreases occ.len() + 1 - k,
    {
        proof {
            assert(occ.contains(spec_candidate(root@, name@, extension@, k as nat)));
            lemma_occupied_bound(occ, root@, name@, extension@, k as nat);
        }
        k = k + 1;
        cand = candidate_path(root, name, extension, k);
    }
    proof {
        lemma_resolve_from_eq(occ, root@, name@, extension@, 1, occ.len() + 1, k as nat);
    }
    chars_to_string(&cand)
}

} // verus!
