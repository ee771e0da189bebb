//! Rewriting of npm version ranges into the comparator syntax that `semver`
//! reads: alternatives joined by `||`, hyphen ranges, spaces after
//! operators, a `v` in front of the version number, and bare versions,
//! which npm reads as exact.
use vstd::prelude::*;

use crate::text::{
    contains_seq, find, find_from, is_ws, matches_at, trim_end, trim_start, word_len,
    append_chars, is_digit, join_exec, join_with, replace_all, replace_exec, split_on,
    split_on_exec, split_once, starts_with, starts_with_exec, sub_chars, trim, trim_exec, views,
    words, words_exec, find_from_exec, lemma_find_from,
};

verus! {

/// The comparison operators, in the order in which they are handled.
pub open spec fn range_ops() -> Seq<Seq<char>> {
    seq![
        seq!['>', '='],
        seq!['<', '='],
        seq!['>'],
        seq!['<'],
        seq!['='],
        seq!['^'],
        seq!['~'],
    ]
}

/// The operator at position `i` of `range_ops()`.
pub fn range_op(i: usize) -> (r: Vec<char>)
    requires
        i < 7,
    ensures
        r@ == range_ops()[i as int],
{
    let r = if i == 0 {
        vec!['>', '=']
    } else if i == 1 {
        vec!['<', '=']
    } else if i == 2 {
        vec!['>']
    } else if i == 3 {
        vec!['<']
    } else if i == 4 {
        vec!['=']
    } else if i == 5 {
        vec!['^']
    } else {
        vec!['~']
    };
    assert(r@ =~= range_ops()[i as int]);
    r
}

/// A hyphen range `a - b` becomes `>=a <=b`; any other text is kept.
pub open spec fn expand_hyphen(t: Seq<char>) -> Seq<char> {
    match split_once(t, seq![' ', '-', ' ']) {
        Some((left, right)) => seq!['>', '='] + trim(left) + seq![' ', '<', '='] + trim(right),
        None => t,
    }
}

/// The text with `op ` replaced by `op` for the operators from position `i`
/// of `range_ops()` on.
pub open spec fn squeeze_ops_from(t: Seq<char>, i: int) -> Seq<char>
    decreases 7 - i,
{
    if i < 0 || i >= 7 {
        t
    } else {
        squeeze_ops_from(replace_all(t, range_ops()[i] + seq![' '], range_ops()[i]), i + 1)
    }
}

/// `v1.2.3` becomes `1.2.3`.
pub open spec fn strip_leading_v(c: Seq<char>) -> Seq<char> {
    if c.len() >= 2 && c[0] == 'v' && is_digit(c[1]) {
        c.drop_first()
    } else {
        c
    }
}

/// `opv1.2.3` becomes `op1.2.3` when `c` begins with `op`.
pub open spec fn strip_op_v(c: Seq<char>, op: Seq<char>) -> Seq<char> {
    if starts_with(c, op) && c.len() >= op.len() + 2 && c[op.len() as int] == 'v' && is_digit(
        c[op.len() + 1int],
    ) {
        c.subrange(0, op.len() as int) + c.subrange(op.len() + 1int, c.len() as int)
    } else {
        c
    }
}

/// `strip_op_v` for the operators from position `i` of `range_ops()` on.
pub open spec fn strip_ops_from(c: Seq<char>, i: int) -> Seq<char>
    decreases 7 - i,
{
    if i < 0 || i >= 7 {
        c
    } else {
        strip_ops_from(strip_op_v(c, range_ops()[i]), i + 1)
    }
}

/// A bare version (one that begins with a digit) pinned with `=`: as in
/// npm, `1.2.3` means exactly that version and `1.2` means `1.2.x`, where
/// `semver` alone would read a bare version as a caret range.
pub open spec fn pin_bare(c: Seq<char>) -> Seq<char> {
    if c.len() > 0 && is_digit(c[0]) {
        seq!['='] + c
    } else {
        c
    }
}

/// One comparator with a `v` prefix removed and a bare version pinned.
pub open spec fn clean_part(p: Seq<char>) -> Seq<char> {
    pin_bare(strip_ops_from(strip_leading_v(p), 0))
}

/// One `||` alternative of an npm range rewritten as `semver` comparators
/// joined by commas.
pub open spec fn normalize_alternative(alt: Seq<char>) -> Seq<char> {
    join_with(
        words(squeeze_ops_from(expand_hyphen(trim(alt)), 0)).map_values(|p: Seq<char>| clean_part(p)),
        seq![','],
    )
}

/// The `||` alternatives of an npm range, each rewritten.
pub open spec fn normalized_alternatives(range: Seq<char>) -> Seq<Seq<char>> {
    split_on(range, seq!['|', '|']).map_values(|a: Seq<char>| normalize_alternative(a))
}

/// The first occurrence of `p` at or after `from` is at `i` when `p`
/// occurs at `i` and nowhere between.
proof fn lemma_find_from_first(s: Seq<char>, p: Seq<char>, from: int, i: int)
    requires
        0 <= from <= i,
        matches_at(s, i, p),
        forall|j: int| from <= j < i ==> !#[trigger] matches_at(s, j, p),
    ensures
        find_from(s, p, from) == Some(i),
    decreases i - from,
{
    if from < i {
        assert(!matches_at(s, from, p));
        lemma_find_from_first(s, p, from + 1, i);
    }
}

/// Law: a range with no `||` is one alternative, rewritten on its own.
pub proof fn law_single_alternative(range: Seq<char>)
    requires
        !contains_seq(range, seq!['|', '|']),
    ensures
        normalized_alternatives(range) == seq![normalize_alternative(range)],
{
    lemma_find_from(range, seq!['|', '|'], 0);
    if let Some(i) = find(range, seq!['|', '|']) {
        assert(matches_at(range, i, seq!['|', '|']));
    }
    assert(split_on(range, seq!['|', '|']) == seq![range]);
    assert(normalized_alternatives(range) =~= seq![normalize_alternative(range)]);
}

/// Law: the `||` alternatives are rewritten one by one, in order: an
/// alternative `a` (holding no `||` and not ending in `|`) followed by `||`
/// and the rest of the range gives `a` rewritten, then the alternatives of
/// the rest. So every alternative of a range, not only one of them, comes
/// out rewritten.
pub proof fn law_alternatives_in_order(a: Seq<char>, rest: Seq<char>)
    requires
        !contains_seq(a, seq!['|', '|']),
        a.len() == 0 || a.last() != '|',
    ensures
        normalized_alternatives(a + seq!['|', '|'] + rest) == seq![normalize_alternative(a)]
            + normalized_alternatives(rest),
{
    let p = seq!['|', '|'];
    let s = a + p + rest;
    assert(matches_at(s, a.len() as int, p)) by {
        assert(s.subrange(a.len() as int, a.len() + 2int) =~= p);
    }
    assert forall|j: int| 0 <= j < a.len() implies !#[trigger] matches_at(s, j, p) by {
        if matches_at(s, j, p) {
            if j + 2 <= a.len() {
                assert(a.subrange(j, j + 2) =~= s.subrange(j, j + 2));
                assert(matches_at(a, j, p));
            } else {
                assert(s[j] == a.last());
                assert(s.subrange(j, j + 2)[0] == s[j]);
            }
        }
    }
    lemma_find_from_first(s, p, 0, a.len() as int);
    assert(s.subrange(0, a.len() as int) =~= a);
    assert(s.subrange(a.len() + 2int, s.len() as int) =~= rest);
    assert(split_on(s, p) == seq![a] + split_on(rest, p));
    assert(normalized_alternatives(s) =~= seq![normalize_alternative(a)] + normalized_alternatives(rest));
}

/// The run of non-whitespace at the front of `x + r` is `x`, when `x` holds
/// no whitespace and `r` is empty or begins with whitespace.
proof fn lemma_word_len_prefix(x: Seq<char>, r: Seq<char>)
    requires
        forall|i: int| 0 <= i < x.len() ==> !is_ws(#[trigger] x[i]),
        r.len() == 0 || is_ws(r[0]),
    ensures
        word_len(x + r) == x.len(),
    decreases x.len(),
{
    if x.len() > 0 {
        assert((x + r)[0] == x[0]);
        assert((x + r).drop_first() =~= x.drop_first() + r);
        assert forall|i: int| 0 <= i < x.drop_first().len() implies !is_ws(#[trigger] x.drop_first()[i]) by {
            assert(x.drop_first()[i] == x[i + 1]);
        }
        lemma_word_len_prefix(x.drop_first(), r);
    } else {
        assert(x + r =~= r);
    }
}

/// `squeeze_ops_from` leaves a text alone when no operator is followed by
/// a space in it.
proof fn lemma_squeeze_unchanged(t: Seq<char>, i: int)
    requires
        0 <= i <= 7,
        forall|k: int| i <= k < 7 ==> !contains_seq(t, #[trigger] range_ops()[k] + seq![' ']),
    ensures
        squeeze_ops_from(t, i) == t,
    decreases 7 - i,
{
    if i < 7 {
        let from = range_ops()[i] + seq![' '];
        lemma_find_from(t, from, 0);
        if let Some(j) = find(t, from) {
            assert(matches_at(t, j, from));
        }
        assert(replace_all(t, from, range_ops()[i]) == t);
        lemma_squeeze_unchanged(t, i + 1);
    }
}

/// Law: every space-separated comparator of an alternative is kept: two
/// comparators `x y` (each without whitespace, the first not ending in an
/// operator character) become both comparators, each cleaned, joined by a
/// comma, which `semver` reads as "both must hold".
pub proof fn law_two_comparators_kept(x: Seq<char>, y: Seq<char>)
    requires
        x.len() > 0,
        y.len() > 0,
        forall|i: int| 0 <= i < x.len() ==> !is_ws(#[trigger] x[i]),
        forall|i: int| 0 <= i < y.len() ==> !is_ws(#[trigger] y[i]),
        x.last() != '>' && x.last() != '<' && x.last() != '=' && x.last() != '^' && x.last() != '~',
    ensures
        normalize_alternative(x + seq![' '] + y) == clean_part(x) + seq![','] + clean_part(y),
{
    let t = x + seq![' '] + y;
    let n = x.len() as int;
    assert forall|k: int| 0 <= k < t.len() && t[k] == ' ' implies k == n by {
        if k < n {
            assert(t[k] == x[k]);
        } else if k > n {
            assert(t[k] == y[k - n - 1]);
        }
    }
    // trimming leaves it alone
    assert(t[0] == x[0]);
    assert(trim_start(t) == t);
    assert(t.last() == y.last());
    assert(trim_end(t) == t);
    assert(trim(t) == t);
    // no hyphen range
    let hy = seq![' ', '-', ' '];
    lemma_find_from(t, hy, 0);
    if let Some(j) = find(t, hy) {
        assert(matches_at(t, j, hy));
        assert(t[j] == t.subrange(j, j + 3)[0]);
        assert(t[j + 2] == t.subrange(j, j + 3)[2]);
    }
    assert(expand_hyphen(t) == t);
    // no operator followed by a space
    assert forall|k: int| 0 <= k < 7 implies !contains_seq(t, #[trigger] range_ops()[k] + seq![' ']) by {
        let op = range_ops()[k];
        let f = op + seq![' '];
        if contains_seq(t, f) {
            let j = choose|j: int| #[trigger] matches_at(t, j, f);
            assert(t[j + op.len()] == t.subrange(j, j + f.len())[op.len() as int]);
            assert(j + op.len() == n);
            assert(t[n - 1] == t.subrange(j, j + f.len())[op.len() - 1]);
            assert(t[n - 1] == x.last());
            assert(f[op.len() - 1] == op.last());
        }
    }
    lemma_squeeze_unchanged(t, 0);
    // the words are x and y
    let u = seq![' '] + y;
    assert(t =~= x + u);
    lemma_word_len_prefix(x, u);
    assert(t.subrange(0, n) =~= x);
    assert(t.subrange(n, t.len() as int) =~= u);
    assert(u.drop_first() =~= y);
    assert(trim_start(y) == y);
    assert(trim_start(u) == y);
    lemma_word_len_prefix(y, seq![]);
    assert(y + seq![] =~= y);
    assert(y.subrange(0, y.len() as int) =~= y);
    assert(y.subrange(y.len() as int, y.len() as int) =~= Seq::<char>::empty());
    assert(words(Seq::<char>::empty()) == Seq::<Seq<char>>::empty());
    assert(words(u) =~= seq![y]);
    assert(words(t) =~= seq![x, y]);
    let cleaned = words(t).map_values(|p: Seq<char>| clean_part(p));
    assert(cleaned =~= seq![clean_part(x), clean_part(y)]);
    assert(cleaned.drop_first() =~= seq![clean_part(y)]);
    assert(squeeze_ops_from(expand_hyphen(trim(t)), 0) == t);
    assert(join_with(cleaned.drop_first(), seq![',']) == clean_part(y));
    assert(join_with(cleaned, seq![',']) == clean_part(x) + seq![','] + clean_part(y));
}

/// Law: the comparators of an alternative are rewritten one by one, in
/// order, and all kept: a comparator `x` (without whitespace, not ending in
/// an operator character) followed by a space and further comparators `r`
/// (trimmed, with no hyphen range and no operator followed by a space)
/// becomes `x` cleaned, a comma, and `r` rewritten.
pub proof fn law_comparators_in_order(x: Seq<char>, r: Seq<char>)
    requires
        x.len() > 0,
        r.len() > 0,
        forall|i: int| 0 <= i < x.len() ==> !is_ws(#[trigger] x[i]),
        !is_ws(r[0]),
        !is_ws(r.last()),
        x.last() != '>' && x.last() != '<' && x.last() != '=' && x.last() != '^' && x.last() != '~',
        r[0] != '-',
        !contains_seq(r, seq![' ', '-', ' ']),
        forall|k: int| 0 <= k < 7 ==> !contains_seq(r, #[trigger] range_ops()[k] + seq![' ']),
    ensures
        normalize_alternative(x + seq![' '] + r) == clean_part(x) + seq![','] + normalize_alternative(r),
{
    let t = x + seq![' '] + r;
    let n = x.len() as int;
    assert forall|k: int| 0 <= k < n implies t[k] == x[k] && t[k] != ' ' by {}
    assert(t[n] == ' ');
    assert forall|k: int| n < k < t.len() implies t[k] == r[k - n - 1] by {}
    // trimming leaves both alone
    assert(t[0] == x[0]);
    assert(trim_start(t) == t);
    assert(t.last() == r.last());
    assert(trim_end(t) == t);
    assert(trim_start(r) == r);
    assert(trim_end(r) == r);
    // no hyphen range in either
    let hy = seq![' ', '-', ' '];
    lemma_find_from(t, hy, 0);
    lemma_find_from(r, hy, 0);
    if let Some(j) = find(t, hy) {
        assert(matches_at(t, j, hy));
        assert(t[j] == t.subrange(j, j + 3)[0]);
        assert(t[j + 1] == t.subrange(j, j + 3)[1]);
        if j < n {
            assert(false);
        } else if j == n {
            assert(t[n + 1] == r[0]);
        } else {
            assert(r.subrange(j - n - 1, j - n + 2) =~= t.subrange(j, j + 3));
            assert(matches_at(r, j - n - 1, hy));
        }
    }
    if let Some(j) = find(r, hy) {
        assert(matches_at(r, j, hy));
    }
    assert(expand_hyphen(t) == t);
    assert(expand_hyphen(r) == r);
    // no operator followed by a space
    assert forall|k: int| 0 <= k < 7 implies !contains_seq(t, #[trigger] range_ops()[k] + seq![' ']) by {
        let op = range_ops()[k];
        let f = op + seq![' '];
        assert(1 <= op.len() <= 2);
        assert(forall|m: int| 0 <= m < op.len() ==> op[m] != ' ');
        if contains_seq(t, f) {
            let j = choose|j: int| #[trigger] matches_at(t, j, f);
            let w = t.subrange(j, j + f.len());
            if j > n {
                assert(r.subrange(j - n - 1, j - n - 1 + f.len()) =~= w);
                assert(matches_at(r, j - n - 1, f));
                assert(!contains_seq(r, range_ops()[k] + seq![' ']));
            } else if j + op.len() == n {
                assert(t[n - 1] == w[op.len() - 1]);
                assert(t[n - 1] == x.last());
            } else if j + op.len() < n {
                assert(t[j + op.len()] == w[op.len() as int]);
            } else {
                assert(t[n] == w[n - j]);
            }
        }
    }
    lemma_squeeze_unchanged(t, 0);
    lemma_squeeze_unchanged(r, 0);
    // the words are x, then the words of r
    let u = seq![' '] + r;
    assert(t =~= x + u);
    lemma_word_len_prefix(x, u);
    assert(t.subrange(0, n) =~= x);
    assert(t.subrange(n, t.len() as int) =~= u);
    assert(u.drop_first() =~= r);
    assert(trim_start(u) == r);
    assert(words(u) == words(r));
    assert(words(t) =~= seq![x] + words(r));
    assert(words(r).len() > 0);
    let cleaned = words(t).map_values(|p: Seq<char>| clean_part(p));
    let cr = words(r).map_values(|p: Seq<char>| clean_part(p));
    assert(cleaned[0] == clean_part(x));
    assert(cleaned.drop_first() =~= cr);
    assert(squeeze_ops_from(expand_hyphen(trim(t)), 0) == t);
    assert(squeeze_ops_from(expand_hyphen(trim(r)), 0) == r);
    assert(join_with(cleaned, seq![',']) == clean_part(x) + seq![','] + join_with(cr, seq![',']));
}

/// `strip_ops_from` leaves alone a text that begins with a digit.
proof fn lemma_strip_ops_digit(c: Seq<char>, i: int)
    requires
        0 <= i <= 7,
        c.len() > 0,
        is_digit(c[0]),
    ensures
        strip_ops_from(c, i) == c,
    decreases 7 - i,
{
    if i < 7 {
        let op = range_ops()[i];
        assert(op.len() > 0 && !is_digit(op[0]));
        if starts_with(c, op) {
            assert(c.subrange(0, op.len() as int)[0] == c[0]);
        }
        lemma_strip_ops_digit(c, i + 1);
    }
}

/// Law: a bare version is pinned exactly, with or without a `v` in front:
/// a comparator that begins with a digit becomes `=` and the comparator,
/// and `v` followed by a digit loses the `v` and is pinned the same way.
pub proof fn law_bare_version_pinned(c: Seq<char>)
    requires
        c.len() > 0,
        is_digit(c[0]),
    ensures
        clean_part(c) == seq!['='] + c,
        clean_part(seq!['v'] + c) == seq!['='] + c,
{
    assert(strip_leading_v(c) == c);
    lemma_strip_ops_digit(c, 0);
    let vc = seq!['v'] + c;
    assert(vc[1] == c[0]);
    assert(vc.drop_first() =~= c);
    assert(strip_leading_v(vc) == c);
}

/// Law: a hyphen range `a - b` (`a` not ending in `-`, holding no ` - `)
/// becomes the two bounds `>=a <=b`, each trimmed.
pub proof fn law_hyphen_range(a: Seq<char>, b: Seq<char>)
    requires
        !contains_seq(a, seq![' ', '-', ' ']),
        a.len() == 0 || a.last() != '-',
    ensures
        expand_hyphen(a + seq![' ', '-', ' '] + b) == seq!['>', '='] + trim(a) + seq![' ', '<', '=']
            + trim(b),
{
    let p = seq![' ', '-', ' '];
    let t = a + p + b;
    let n = a.len() as int;
    assert(t.subrange(n, n + 3) =~= p);
    assert forall|j: int| 0 <= j < n implies !#[trigger] matches_at(t, j, p) by {
        if matches_at(t, j, p) {
            let w = t.subrange(j, j + 3);
            if j + 3 <= n {
                assert(a.subrange(j, j + 3) =~= w);
                assert(matches_at(a, j, p));
            } else if j == n - 1 {
                assert(t[j + 1] == w[1]);
                assert(t[n] == ' ');
            } else {
                assert(j == n - 2);
                assert(t[j + 1] == w[1]);
                assert(t[n - 1] == a.last());
            }
        }
    }
    lemma_find_from_first(t, p, 0, n);
    assert(t.subrange(0, n) =~= a);
    assert(t.subrange(n + 3, t.len() as int) =~= b);
}

/// `v1.2.3` becomes `1.2.3`.
fn strip_leading_v_exec(c: Vec<char>) -> (r: Vec<char>)
    ensures
        r@ == strip_leading_v(c@),
{
    if c.len() >= 2 && c[0] == 'v' && '0' <= c[1] && c[1] <= '9' {
        sub_chars(c.as_slice(), 1, c.len())
    } else {
        c
    }
}

/// `opv1.2.3` becomes `op1.2.3` when `c` begins with `op`.
fn strip_op_v_exec(c: Vec<char>, op: &[char]) -> (r: Vec<char>)
    ensures
        r@ == strip_op_v(c@, op@),
{
    if starts_with_exec(c.as_slice(), op) && c.len() >= 2 && op.len() <= c.len() - 2 && c[op.len()]
        == 'v' && '0' <= c[op.len() + 1] && c[op.len() + 1] <= '9' {
        let mut r = sub_chars(c.as_slice(), 0, op.len());
        append_chars(&mut r, slice_subrange_tail(c.as_slice(), op.len() + 1));
        r
    } else {
        c
    }
}

/// The characters of `s` from position `a` on.
fn slice_subrange_tail(s: &[char], a: usize) -> (r: &[char])
    requires
        a <= s@.len(),
    ensures
        r@ == s@.subrange(a as int, s@.len() as int),
{
    vstd::slice::slice_subrange(s, a, s.len())
}

/// One comparator with a `v` prefix removed and a bare version pinned.
pub fn clean_part_exec(p: Vec<char>) -> (r: Vec<char>)
    ensures
        r@ == clean_part(p@),
{
    let mut c = strip_leading_v_exec(p);
    let ghost c0 = c@;
    let mut i: usize = 0;
    while i < 7
        invariant
            i <= 7,
            strip_ops_from(c@, i as int) == strip_ops_from(c0, 0),
        decreases 7 - i,
    {
        let op = range_op(i);
        c = strip_op_v_exec(c, op.as_slice());
        i += 1;
    }
    if c.len() > 0 && '0' <= c[0] && c[0] <= '9' {
        let mut r: Vec<char> = vec!['='];
        append_chars(&mut r, c.as_slice());
        assert(r@ =~= seq!['='] + c@);
        r
    } else {
        c
    }
}

/// A hyphen range `a - b` becomes `>=a <=b`; any other text is kept.
fn expand_hyphen_exec(t: Vec<char>) -> (r: Vec<char>)
    ensures
        r@ == expand_hyphen(t@),
{
    let pat = vec![' ', '-', ' '];
    assert(pat@ == seq![' ', '-', ' ']);
    match find_from_exec(t.as_slice(), pat.as_slice(), 0) {
        None => t,
        Some(i) => {
            proof {
                lemma_find_from(t@, pat@, 0);
                assert(i + 3 <= t@.len());
            }
            let left = trim_exec(vstd::slice::slice_subrange(t.as_slice(), 0, i));
            assert(i + 3 <= t.len());
            let right = trim_exec(slice_subrange_tail(t.as_slice(), i + 3));
            let mut r: Vec<char> = vec!['>', '='];
            append_chars(&mut r, left.as_slice());
            append_chars(&mut r, &[' ', '<', '=']);
            append_chars(&mut r, right.as_slice());
            assert(r@ =~= seq!['>', '='] + trim(t@.subrange(0, i as int)) + seq![' ', '<', '=']
                + trim(t@.subrange(i + 3, t@.len() as int)));
            r
        },
    }
}

/// One `||` alternative of an npm range rewritten as `semver` comparators
/// joined by commas.
pub fn normalize_alternative_exec(alt: &[char]) -> (r: Vec<char>)
    ensures
        r@ == normalize_alternative(alt@),
{
    let mut t = expand_hyphen_exec(trim_exec(alt));
    let ghost t0 = t@;
    let mut i: usize = 0;
    while i < 7
        invariant
            i <= 7,
            squeeze_ops_from(t@, i as int) == squeeze_ops_from(t0, 0),
        decreases 7 - i,
    {
        let op = range_op(i);
        let mut from = range_op(i);
        from.push(' ');
        assert(from@ =~= range_ops()[i as int] + seq![' ']);
        t = replace_exec(t.as_slice(), from.as_slice(), op.as_slice());
        i += 1;
    }
    let parts = words_exec(t.as_slice());
    let mut cleaned: Vec<Vec<char>> = Vec::new();
    let mut k: usize = 0;
    while k < parts.len()
        invariant
            k <= parts@.len(),
            cleaned@.len() == k,
            forall|j: int| 0 <= j < k ==> #[trigger] cleaned@[j]@ == clean_part(parts@[j]@),
        decreases parts.len() - k,
    {
        let p = sub_chars(parts[k].as_slice(), 0, parts[k].len());
        assert(p@ =~= parts@[k as int]@);
        cleaned.push(clean_part_exec(p));
        k += 1;
    }
    assert(views(cleaned@) =~= views(parts@).map_values(|p: Seq<char>| clean_part(p)));
    assert(squeeze_ops_from(t@, 7) == t@);
    let sep = vec![','];
    assert(sep@ =~= seq![',']);
    join_exec(&cleaned, sep.as_slice())
}

/// The `||` alternatives of an npm range, each rewritten.
pub fn normalized_alternatives_exec(range: &[char]) -> (r: Vec<Vec<char>>)
    ensures
        views(r@) == normalized_alternatives(range@),
{
    let alts = split_on_exec(range, &['|', '|']);
    let mut r: Vec<Vec<char>> = Vec::new();
    let mut k: usize = 0;
    while k < alts.len()
        invariant
            k <= alts@.len(),
            r@.len() == k,
            forall|j: int| 0 <= j < k ==> #[trigger] r@[j]@ == normalize_alternative(alts@[j]@),
        decreases alts.len() - k,
    {
        r.push(normalize_alternative_exec(alts[k].as_slice()));
        k += 1;
    }
    assert(views(r@) =~= views(alts@).map_values(|a: Seq<char>| normalize_alternative(a)));
    r
}

} // verus!
