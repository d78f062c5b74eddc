//! Character-level string helpers with specifications over `Seq<char>`.

use vstd::prelude::*;

verus! {

/// Appends one character to a string.
///
/// Trusted: calls `String::push`, which std documents as appending the given
/// character to the end of the string.
#[verifier::external_body]
pub(crate) fn push_char(s: &mut String, c: char)
    ensures
        final(s)@ == old(s)@.push(c),
{
    s.push(c);
}

/// The characters of `s`, in order.
pub fn chars_of(s: &str) -> (r: Vec<char>)
    ensures
        r@ == s@,
{
    let mut r: Vec<char> = Vec::new();
    for c in it: s.chars()
        invariant
            r@ == it.seq().take(it.index() as int),
            it.seq() == s@,
    {
        r.push(c);
    }
    r
}


/// `s` with every occurrence of the non-empty pattern `pat` replaced by `rep`,
/// occurrences being found from left to right without overlapping.
pub open spec fn replace_all(s: Seq<char>, pat: Seq<char>, rep: Seq<char>) -> Seq<char>
    decreases s.len(),
{
    if s.len() == 0 {
        Seq::empty()
    } else if 0 < pat.len() <= s.len() && s.take(pat.len() as int) == pat {
        rep + replace_all(s.skip(pat.len() as int), pat, rep)
    } else {
        seq![s[0]] + replace_all(s.skip(1), pat, rep)
    }
}

/// Whether `pat` occurs in `s` starting at character index `i`.
fn occurs_at(s: &Vec<char>, i: usize, pat: &Vec<char>) -> (b: bool)
    requires
        i <= s.len(),
    ensures
        b == (pat.len() <= s.len() - i && s@.subrange(i as int, i + pat.len()) == pat@),
{
    if pat.len() > s.len() - i {
        return false;
    }
    let mut j: usize = 0;
    while j < pat.len()
        invariant
            i + pat.len() <= s.len(),
            j <= pat.len(),
            forall|k: int| 0 <= k < j ==> s@[i + k] == pat@[k],
        decreases pat.len() - j,
    {
        if s[i + j] != pat[j] {
            assert(s@.subrange(i as int, i + pat.len())[j as int] != pat@[j as int]);
            return false;
        }
        j = j + 1;
    }
    assert(s@.subrange(i as int, i + pat.len()) =~= pat@);
    true
}

/// Replaces every occurrence of `pat` in `s` by `rep` (as `str::replace` does
/// for a non-empty pattern).
pub fn replace_all_str(s: &str, pat: &str, rep: &str) -> (r: String)
    requires
        pat@.len() > 0,
    ensures
        r@ == replace_all(s@, pat@, rep@),
{
    let sv = chars_of(s);
    let pv = chars_of(pat);
    let mut out = String::new();
    let mut i: usize = 0;
    assert(s@.skip(0) =~= s@);
    assert(out@ + replace_all(s@, pat@, rep@) =~= replace_all(s@, pat@, rep@));
    while i < sv.len()
        invariant
            sv@ == s@,
            pv@ == pat@,
            pv.len() > 0,
            i <= sv.len(),
            replace_all(s@, pat@, rep@) == out@ + replace_all(s@.skip(i as int), pat@, rep@),
        decreases sv.len() - i,
    {
        let ghost rest = s@.skip(i as int);
        if occurs_at(&sv, i, &pv) {
            assert(rest.take(pat@.len() as int) =~= s@.subrange(i as int, i + pat@.len()));
            assert(rest.skip(pat@.len() as int) =~= s@.skip(i + pv.len()));
            out.append(rep);
            i = i + pv.len();
        } else {
            proof {
                if pat@.len() <= rest.len() {
                    assert(rest.take(pat@.len() as int) =~= s@.subrange(i as int, i + pat@.len()));
                }
            }
            assert(rest.skip(1) =~= s@.skip(i + 1));
            push_char(&mut out, sv[i]);
            i = i + 1;
        }
    }
    assert(s@.skip(i as int) =~= Seq::<char>::empty());
    out
}


/// The character for a decimal digit `d` (`0 <= d < 10`).
pub open spec fn digit_char(d: nat) -> char {
    if d == 0 { '0' }
    else if d == 1 { '1' }
    else if d == 2 { '2' }
    else if d == 3 { '3' }
    else if d == 4 { '4' }
    else if d == 5 { '5' }
    else if d == 6 { '6' }
    else if d == 7 { '7' }
    else if d == 8 { '8' }
    else { '9' }
}

/// The decimal representation of `n`, without leading zeros, as `Display`
/// prints an unsigned integer.
pub open spec fn decimal(n: nat) -> Seq<char>
    decreases n,
{
    if n < 10 {
        seq![digit_char(n)]
    } else {
        decimal(n / 10).push(digit_char(n % 10))
    }
}

fn digit(d: usize) -> (c: char)
    requires
        d < 10,
    ensures
        c == digit_char(d as nat),
{
    match d {
        0 => '0',
        1 => '1',
        2 => '2',
        3 => '3',
        4 => '4',
        5 => '5',
        6 => '6',
        7 => '7',
        8 => '8',
        _ => '9',
    }
}

/// Appends the decimal representation of `n` to `out`.
pub fn push_decimal(out: &mut String, n: usize)
    ensures
        final(out)@ == old(out)@ + decimal(n as nat),
    decreases n,
{
    if n >= 10 {
        push_decimal(out, n / 10);
    }
    push_char(out, digit(n % 10));
    assert(final(out)@ =~= old(out)@ + decimal(n as nat));
}

/// The views of a sequence of strings.
pub open spec fn views(s: Seq<String>) -> Seq<Seq<char>> {
    s.map_values(|x: String| x@)
}

/// The pieces of `parts` joined with `sep` between consecutive pieces.
pub open spec fn join(parts: Seq<Seq<char>>, sep: Seq<char>) -> Seq<char>
    decreases parts.len(),
{
    if parts.len() == 0 {
        Seq::empty()
    } else if parts.len() == 1 {
        parts[0]
    } else {
        join(parts.drop_last(), sep) + sep + parts.last()
    }
}

/// Joins the strings of `parts` with `sep` between consecutive ones
/// (as `[String]::join` does).
pub fn join_strings(parts: &Vec<String>, sep: &str) -> (r: String)
    ensures
        r@ == join(views(parts@), sep@),
{
    let mut out = String::new();
    let mut i: usize = 0;
    while i < parts.len()
        invariant
            i <= parts.len(),
            out@ == join(views(parts@).take(i as int), sep@),
        decreases parts.len() - i,
    {
        assert(views(parts@).take(i + 1).drop_last() =~= views(parts@).take(i as int));
        if i > 0 {
            out.append(sep);
        } else {
            assert(views(parts@).take(1) =~= seq![parts@[0]@]);
        }
        out.append(parts[i].as_str());
        i = i + 1;
    }
    assert(views(parts@).take(i as int) =~= views(parts@));
    out
}


/// The pieces of `s` between occurrences of `sep`, the first of them
/// continuing the piece `cur` that came before `s`.
pub open spec fn split_from(s: Seq<char>, sep: char, cur: Seq<char>) -> Seq<Seq<char>>
    decreases s.len(),
{
    if s.len() == 0 {
        seq![cur]
    } else if s[0] == sep {
        seq![cur] + split_from(s.skip(1), sep, Seq::empty())
    } else {
        split_from(s.skip(1), sep, cur.push(s[0]))
    }
}

/// The pieces of `s` between occurrences of `sep` (as `str::split` yields
/// them for a character pattern): always one more than the occurrences.
pub open spec fn split_on(s: Seq<char>, sep: char) -> Seq<Seq<char>> {
    split_from(s, sep, Seq::empty())
}

/// Splits `s` at every occurrence of `sep`.
pub fn split_str(s: &str, sep: char) -> (r: Vec<String>)
    ensures
        views(r@) == split_on(s@, sep),
{
    let sv = chars_of(s);
    let mut parts: Vec<String> = Vec::new();
    let mut cur = String::new();
    let mut i: usize = 0;
    assert(s@.skip(0) =~= s@);
    assert(views(parts@) + split_on(s@, sep) =~= split_on(s@, sep));
    while i < sv.len()
        invariant
            sv@ == s@,
            i <= sv.len(),
            split_on(s@, sep) == views(parts@) + split_from(s@.skip(i as int), sep, cur@),
        decreases sv.len() - i,
    {
        let ghost rest = s@.skip(i as int);
        assert(rest.skip(1) =~= s@.skip(i + 1));
        if sv[i] == sep {
            let piece = cur;
            cur = String::new();
            let ghost before = parts@;
            parts.push(piece);
            assert(views(parts@) =~= views(before).push(piece@));
            assert(views(before) + split_from(rest, sep, piece@) =~= views(parts@) + split_from(
                s@.skip(i + 1),
                sep,
                cur@,
            ));
        } else {
            push_char(&mut cur, sv[i]);
        }
        i = i + 1;
    }
    let ghost before = parts@;
    parts.push(cur);
    assert(s@.skip(i as int) =~= Seq::<char>::empty());
    assert(views(parts@) =~= views(before).push(cur@));
    assert(views(parts@) =~= views(before) + split_from(s@.skip(i as int), sep, cur@));
    parts
}


/// `n` copies of `c`.
pub open spec fn repeated(c: char, n: nat) -> Seq<char> {
    Seq::new(n, |_i: int| c)
}

/// A string of `n` copies of `c`.
pub fn repeat_char(c: char, n: usize) -> (r: String)
    ensures
        r@ == repeated(c, n as nat),
{
    let mut r = String::new();
    let mut i: usize = 0;
    while i < n
        invariant
            i <= n,
            r@ == repeated(c, i as nat),
        decreases n - i,
    {
        push_char(&mut r, c);
        i = i + 1;
        assert(r@ =~= repeated(c, i as nat));
    }
    r
}

/// The length in bytes of the UTF-8 encoding of `s`.
pub open spec fn byte_len(s: Seq<char>) -> nat {
    vstd::utf8::encode_utf8(s).len()
}

/// Whether `a` comes before or equals `b` in lexicographic order of code
/// points (which is also the byte order of their UTF-8 encodings).
pub open spec fn lex_le(a: Seq<char>, b: Seq<char>) -> bool
    decreases a.len(),
{
    if a.len() == 0 {
        true
    } else if b.len() == 0 {
        false
    } else if a[0] != b[0] {
        a[0] < b[0]
    } else {
        lex_le(a.skip(1), b.skip(1))
    }
}

/// `lex_le` is total.
pub proof fn lemma_lex_le_total(a: Seq<char>, b: Seq<char>)
    ensures
        lex_le(a, b) || lex_le(b, a),
    decreases a.len(),
{
    if a.len() > 0 && b.len() > 0 && a[0] == b[0] {
        lemma_lex_le_total(a.skip(1), b.skip(1));
    }
}

/// `lex_le` is reflexive.
pub proof fn lemma_lex_le_reflexive(a: Seq<char>)
    ensures
        lex_le(a, a),
    decreases a.len(),
{
    if a.len() > 0 {
        lemma_lex_le_reflexive(a.skip(1));
    }
}

/// `lex_le` is transitive.
pub proof fn lemma_lex_le_transitive(a: Seq<char>, b: Seq<char>, c: Seq<char>)
    requires
        lex_le(a, b),
        lex_le(b, c),
    ensures
        lex_le(a, c),
    decreases a.len(),
{
    if a.len() > 0 && b.len() > 0 && c.len() > 0 && a[0] == b[0] && b[0] == c[0] {
        lemma_lex_le_transitive(a.skip(1), b.skip(1), c.skip(1));
    }
}

/// `lex_le` is antisymmetric.
pub proof fn lemma_lex_le_antisymmetric(a: Seq<char>, b: Seq<char>)
    requires
        lex_le(a, b),
        lex_le(b, a),
    ensures
        a == b,
    decreases a.len(),
{
    if a.len() > 0 && b.len() > 0 {
        lemma_lex_le_antisymmetric(a.skip(1), b.skip(1));
        assert(a =~= seq![a[0]] + a.skip(1));
        assert(b =~= seq![b[0]] + b.skip(1));
    }
}

/// Whether `a` comes before or equals `b` (see [`lex_le`]).
pub fn chars_le(a: &Vec<char>, b: &Vec<char>) -> (r: bool)
    ensures
        r == lex_le(a@, b@),
{
    let mut i: usize = 0;
    assert(a@.skip(0) =~= a@);
    assert(b@.skip(0) =~= b@);
    while i < a.len() && i < b.len() && a[i] == b[i]
        invariant
            i <= a.len(),
            i <= b.len(),
            lex_le(a@, b@) == lex_le(a@.skip(i as int), b@.skip(i as int)),
        decreases a.len() - i,
    {
        assert(a@.skip(i as int).skip(1) =~= a@.skip(i + 1));
        assert(b@.skip(i as int).skip(1) =~= b@.skip(i + 1));
        i = i + 1;
    }
    if i == a.len() {
        true
    } else if i == b.len() {
        false
    } else {
        a[i] < b[i]
    }
}

/// Whether `s` is in non-decreasing [`lex_le`] order.
pub open spec fn lex_sorted(s: Seq<Seq<char>>) -> bool {
    forall|i: int, j: int| 0 <= i < j < s.len() ==> lex_le(#[trigger] s[i], #[trigger] s[j])
}

/// Sorts `items` into lexicographic order (the order of `String`'s `Ord`).
pub fn sort_strings(items: Vec<String>) -> (r: Vec<String>)
    ensures
        lex_sorted(views(r@)),
        views(r@).to_multiset() == views(items@).to_multiset(),
{
    let mut out: Vec<String> = Vec::new();
    let mut keys: Vec<Vec<char>> = Vec::new();
    let mut i: usize = 0;
    assert(views(out@) =~= views(items@).take(0));
    while i < items.len()
        invariant
            i <= items.len(),
            out@.len() == keys@.len(),
            forall|k: int| 0 <= k < keys@.len() ==> #[trigger] keys@[k]@ == out@[k]@,
            lex_sorted(views(out@)),
            views(out@).to_multiset() == views(items@).take(i as int).to_multiset(),
        decreases items.len() - i,
    {
        let x = items[i].clone();
        let xc = chars_of(x.as_str());
        let mut p: usize = 0;
        while p < out.len() && chars_le(&keys[p], &xc)
            invariant
                p <= out.len(),
                out@.len() == keys@.len(),
                forall|k: int| 0 <= k < keys@.len() ==> #[trigger] keys@[k]@ == out@[k]@,
                forall|k: int| 0 <= k < p ==> lex_le(#[trigger] out@[k]@, x@),
                xc@ == x@,
            decreases out.len() - p,
        {
            p = p + 1;
        }
        let ghost old_out = views(out@);
        proof {
            if p < out.len() {
                lemma_lex_le_total(out@[p as int]@, x@);
                assert forall|k: int| p <= k < old_out.len() implies lex_le(x@, #[trigger] old_out[k]) by {
                    if k > p {
                        lemma_lex_le_transitive(x@, old_out[p as int], old_out[k]);
                    }
                }
            }
        }
        out.insert(p, x);
        keys.insert(p, xc);
        let ghost new_out = views(out@);
        assert(new_out =~= old_out.take(p as int) + seq![x@] + old_out.skip(p as int));
        assert(forall|k: int| 0 <= k < p ==> new_out[k] == old_out[k]);
        assert(forall|k: int| p < k < new_out.len() ==> new_out[k] == old_out[k - 1]);
        assert forall|a: int, b: int| 0 <= a < b < new_out.len() implies lex_le(
            #[trigger] new_out[a],
            #[trigger] new_out[b],
        ) by {
            if b == p {
                assert(new_out[a] == old_out[a]);
            } else if a == p {
                assert(new_out[b] == old_out[b - 1]);
            } else if a < p && b > p {
                assert(lex_le(old_out[a], x@));
                assert(lex_le(x@, old_out[b - 1]));
                lemma_lex_le_transitive(old_out[a], x@, old_out[b - 1]);
            } else if b < p {
            } else {
                assert(new_out[a] == old_out[a - 1]);
                assert(new_out[b] == old_out[b - 1]);
            }
        }
        proof {
            vstd::seq_lib::lemma_multiset_commutative(old_out.take(p as int), seq![x@] + old_out.skip(p as int));
            vstd::seq_lib::lemma_multiset_commutative(seq![x@], old_out.skip(p as int));
            vstd::seq_lib::lemma_multiset_commutative(old_out.take(p as int), old_out.skip(p as int));
            assert(old_out.take(p as int) + old_out.skip(p as int) =~= old_out);
            assert(old_out.take(p as int) + (seq![x@] + old_out.skip(p as int)) =~= new_out);
            assert(views(items@).take(i + 1) =~= views(items@).take(i as int).push(x@));
            vstd::seq_lib::lemma_multiset_commutative(views(items@).take(i as int), seq![x@]);
            assert(views(items@).take(i as int) + seq![x@] =~= views(items@).take(i + 1));
        }
        i = i + 1;
    }
    assert(views(items@).take(i as int) =~= views(items@));
    out
}


/// The views of a sequence of string pairs.
pub open spec fn pair_views(s: Seq<(String, String)>) -> Seq<(Seq<char>, Seq<char>)> {
    s.map_values(|x: (String, String)| (x.0@, x.1@))
}

/// Whether the pairs of `s` are in non-decreasing [`lex_le`] order of their
/// first components.
pub open spec fn sorted_by_first(s: Seq<(Seq<char>, Seq<char>)>) -> bool {
    forall|i: int, j: int| 0 <= i < j < s.len() ==> lex_le(#[trigger] s[i].0, #[trigger] s[j].0)
}

/// Whether the first component of a pair is `k`.
pub open spec fn has_first(k: Seq<char>) -> spec_fn((Seq<char>, Seq<char>)) -> bool {
    |p: (Seq<char>, Seq<char>)| p.0 == k
}

/// The pairs of `s` whose first component is `k`, in order.
pub open spec fn with_first(s: Seq<(Seq<char>, Seq<char>)>, k: Seq<char>) -> Seq<(Seq<char>, Seq<char>)> {
    s.filter(has_first(k))
}

proof fn lemma_filter_push<A>(s: Seq<A>, x: A, pred: spec_fn(A) -> bool)
    ensures
        s.push(x).filter(pred) == if pred(x) { s.filter(pred).push(x) } else { s.filter(pred) },
{
    reveal_with_fuel(Seq::filter, 1);
    assert(s.push(x).drop_last() =~= s);
}

proof fn lemma_filter_none<A>(s: Seq<A>, pred: spec_fn(A) -> bool)
    requires
        forall|i: int| 0 <= i < s.len() ==> !pred(#[trigger] s[i]),
    ensures
        s.filter(pred) == Seq::<A>::empty(),
    decreases s.len(),
{
    reveal_with_fuel(Seq::filter, 1);
    if s.len() > 0 {
        assert(!pred(s[s.len() - 1]));
        assert forall|i: int| 0 <= i < s.drop_last().len() implies !pred(#[trigger] s.drop_last()[i]) by {
            assert(s.drop_last()[i] == s[i]);
        }
        lemma_filter_none(s.drop_last(), pred);
    }
}

/// Sorts `items` by their first components, keeping the relative order of
/// pairs whose first components are equal (as the stable `sort_by` does).
pub fn sort_pairs_by_first(items: Vec<(String, String)>) -> (r: Vec<(String, String)>)
    ensures
        sorted_by_first(pair_views(r@)),
        forall|k: Seq<char>| #[trigger] with_first(pair_views(r@), k) == with_first(pair_views(items@), k),
        pair_views(r@).to_multiset() == pair_views(items@).to_multiset(),
{
    let mut out: Vec<(String, String)> = Vec::new();
    let mut keys: Vec<Vec<char>> = Vec::new();
    let mut i: usize = 0;
    assert(pair_views(out@) =~= pair_views(items@).take(0));
    while i < items.len()
        invariant
            i <= items.len(),
            out@.len() == keys@.len(),
            forall|k: int| 0 <= k < keys@.len() ==> #[trigger] keys@[k]@ == out@[k].0@,
            sorted_by_first(pair_views(out@)),
            forall|k: Seq<char>| #[trigger] with_first(pair_views(out@), k) == with_first(
                pair_views(items@).take(i as int),
                k,
            ),
            pair_views(out@).to_multiset() == pair_views(items@).take(i as int).to_multiset(),
        decreases items.len() - i,
    {
        let x = (items[i].0.clone(), items[i].1.clone());
        let xc = chars_of(x.0.as_str());
        let mut p: usize = 0;
        while p < out.len() && chars_le(&keys[p], &xc)
            invariant
                p <= out.len(),
                out@.len() == keys@.len(),
                forall|k: int| 0 <= k < keys@.len() ==> #[trigger] keys@[k]@ == out@[k].0@,
                forall|k: int| 0 <= k < p ==> lex_le(#[trigger] out@[k].0@, x.0@),
                xc@ == x.0@,
            decreases out.len() - p,
        {
            p = p + 1;
        }
        let ghost old_out = pair_views(out@);
        let ghost xv = (x.0@, x.1@);
        proof {
            if p < out.len() {
                lemma_lex_le_total(out@[p as int].0@, x.0@);
                assert forall|k: int| p <= k < old_out.len() implies lex_le(xv.0, #[trigger] old_out[k].0) by {
                    if k > p {
                        lemma_lex_le_transitive(xv.0, old_out[p as int].0, old_out[k].0);
                    }
                }
                assert forall|k: int| p <= k < old_out.len() implies #[trigger] old_out[k].0 != xv.0 by {
                    if old_out[k].0 == xv.0 && k > p {
                        assert(lex_le(old_out[p as int].0, old_out[k].0));
                    }
                }
            }
        }
        out.insert(p, x);
        keys.insert(p, xc);
        let ghost new_out = pair_views(out@);
        assert(new_out =~= old_out.take(p as int) + seq![xv] + old_out.skip(p as int));
        assert(forall|k: int| 0 <= k < p ==> new_out[k] == old_out[k]);
        assert(forall|k: int| p < k < new_out.len() ==> new_out[k] == old_out[k - 1]);
        assert forall|a: int, b: int| 0 <= a < b < new_out.len() implies lex_le(
            #[trigger] new_out[a].0,
            #[trigger] new_out[b].0,
        ) by {
            if b == p {
                assert(new_out[a] == old_out[a]);
            } else if a == p {
                assert(new_out[b] == old_out[b - 1]);
            } else if a < p && b > p {
                assert(lex_le(old_out[a].0, xv.0));
                assert(lex_le(xv.0, old_out[b - 1].0));
                lemma_lex_le_transitive(old_out[a].0, xv.0, old_out[b - 1].0);
            } else if b < p {
            } else {
                assert(new_out[a] == old_out[a - 1]);
                assert(new_out[b] == old_out[b - 1]);
            }
        }
        proof {
            vstd::seq_lib::lemma_multiset_commutative(old_out.take(p as int), seq![xv] + old_out.skip(p as int));
            vstd::seq_lib::lemma_multiset_commutative(seq![xv], old_out.skip(p as int));
            vstd::seq_lib::lemma_multiset_commutative(old_out.take(p as int), old_out.skip(p as int));
            assert(old_out.take(p as int) + old_out.skip(p as int) =~= old_out);
            assert(old_out.take(p as int) + (seq![xv] + old_out.skip(p as int)) =~= new_out);
            assert(pair_views(items@).take(i + 1) =~= pair_views(items@).take(i as int).push(xv));
            vstd::seq_lib::lemma_multiset_commutative(pair_views(items@).take(i as int), seq![xv]);
            assert(pair_views(items@).take(i as int) + seq![xv] =~= pair_views(items@).take(i + 1));
            let front = old_out.take(p as int);
            let back = old_out.skip(p as int);
            assert forall|k: Seq<char>| #[trigger] with_first(new_out, k) == with_first(
                pair_views(items@).take(i + 1),
                k,
            ) by {
                Seq::filter_distributes_over_add(front, seq![xv] + back, has_first(k));
                Seq::filter_distributes_over_add(seq![xv], back, has_first(k));
                Seq::filter_distributes_over_add(front, back, has_first(k));
                lemma_filter_push(Seq::<(Seq<char>, Seq<char>)>::empty(), xv, has_first(k));
                assert(Seq::<(Seq<char>, Seq<char>)>::empty().push(xv) =~= seq![xv]);
                reveal_with_fuel(Seq::filter, 1);
                lemma_filter_push(pair_views(items@).take(i as int), xv, has_first(k));
                assert(with_first(old_out, k) == with_first(pair_views(items@).take(i as int), k));
                if k == xv.0 {
                    assert forall|j: int| 0 <= j < back.len() implies !(has_first(k))(#[trigger] back[j]) by {
                        assert(back[j] == old_out[p + j]);
                    }
                    lemma_filter_none(back, has_first(k));
                    assert(with_first(new_out, k) =~= with_first(front, k).push(xv));
                    assert(with_first(old_out, k) =~= with_first(front, k));
                } else {
                    assert(with_first(new_out, k) =~= with_first(front, k) + with_first(back, k));
                }
            }
        }
        i = i + 1;
    }
    assert(pair_views(items@).take(i as int) =~= pair_views(items@));
    out
}


/// Splitting `s` when it holds no `sep` gives `cur + s` alone.
pub proof fn lemma_split_without_sep(s: Seq<char>, sep: char, cur: Seq<char>)
    requires
        !s.contains(sep),
    ensures
        split_from(s, sep, cur) == seq![cur + s],
    decreases s.len(),
{
    if s.len() > 0 {
        assert(!s.skip(1).contains(sep)) by {
            if s.skip(1).contains(sep) {
                let k = choose|k: int| 0 <= k < s.skip(1).len() && s.skip(1)[k] == sep;
                assert(s[k + 1] == sep);
            }
        }
        assert(s[0] != sep);
        lemma_split_without_sep(s.skip(1), sep, cur.push(s[0]));
        assert(cur.push(s[0]) + s.skip(1) =~= cur + s);
    } else {
        assert(cur + s =~= cur);
    }
}

/// Splitting at a separator that joins `p` and `s` splits `p` and `s` apart.
pub proof fn lemma_split_concat(p: Seq<char>, sep: char, s: Seq<char>, cur: Seq<char>)
    ensures
        split_from(p + seq![sep] + s, sep, cur) == split_from(p, sep, cur) + split_on(s, sep),
    decreases p.len(),
{
    let whole = p + seq![sep] + s;
    if p.len() == 0 {
        assert(whole[0] == sep);
        assert(whole.skip(1) =~= s);
    } else {
        assert(whole[0] == p[0]);
        assert(whole.skip(1) =~= p.skip(1) + seq![sep] + s);
        if p[0] == sep {
            lemma_split_concat(p.skip(1), sep, s, Seq::empty());
        } else {
            lemma_split_concat(p.skip(1), sep, s, cur.push(p[0]));
        }
    }
}


/// Two lexicographically sorted sequences that hold the same strings the
/// same number of times are equal: sorting has exactly one result.
pub proof fn law_sorted_permutation_unique(a: Seq<Seq<char>>, b: Seq<Seq<char>>)
    requires
        lex_sorted(a),
        lex_sorted(b),
        a.to_multiset() == b.to_multiset(),
    ensures
        a == b,
    decreases a.len(),
{
    broadcast use vstd::seq_lib::group_to_multiset_ensures;

    a.to_multiset_ensures();
    b.to_multiset_ensures();
    assert(a.len() == b.len());
    if a.len() > 0 {
        assert(a.contains(a[0]));
        assert(b.to_multiset().count(a[0]) > 0);
        let kb = choose|k: int| 0 <= k < b.len() && b[k] == a[0];
        assert(b.contains(b[0]));
        assert(a.to_multiset().count(b[0]) > 0);
        let ka = choose|k: int| 0 <= k < a.len() && a[k] == b[0];
        if kb > 0 {
            assert(lex_le(b[0], b[kb]));
        } else {
            lemma_lex_le_reflexive(b[0]);
        }
        if ka > 0 {
            assert(lex_le(a[0], a[ka]));
        } else {
            lemma_lex_le_reflexive(a[0]);
        }
        lemma_lex_le_antisymmetric(a[0], b[0]);
        let ar = a.remove(0);
        let br = b.remove(0);
        assert(ar.to_multiset() =~= a.to_multiset().remove(a[0]));
        assert(br.to_multiset() =~= b.to_multiset().remove(b[0]));
        assert forall|i: int, j: int| 0 <= i < j < ar.len() implies lex_le(#[trigger] ar[i], #[trigger] ar[j]) by {
            assert(ar[i] == a[i + 1] && ar[j] == a[j + 1]);
        }
        assert forall|i: int, j: int| 0 <= i < j < br.len() implies lex_le(#[trigger] br[i], #[trigger] br[j]) by {
            assert(br[i] == b[i + 1] && br[j] == b[j + 1]);
        }
        law_sorted_permutation_unique(ar, br);
        assert(a =~= seq![a[0]] + ar);
        assert(b =~= seq![b[0]] + br);
    } else {
        assert(a =~= b);
    }
}


/// Replacing a pattern that does not occur leaves the string unchanged.
pub proof fn lemma_replace_absent(s: Seq<char>, pat: Seq<char>, rep: Seq<char>)
    requires
        forall|i: int| 0 <= i <= s.len() - pat.len() ==> #[trigger] s.subrange(i, i + pat.len()) != pat,
    ensures
        replace_all(s, pat, rep) == s,
    decreases s.len(),
{
    if s.len() > 0 {
        if 0 < pat.len() <= s.len() {
            assert(s.subrange(0int, 0int + pat.len()) != pat);
            assert(s.take(pat.len() as int) =~= s.subrange(0int, 0int + pat.len()));
        }
        let t = s.skip(1);
        assert forall|i: int| 0 <= i <= t.len() - pat.len() implies #[trigger] t.subrange(i, i + pat.len()) != pat by {
            assert(t.subrange(i, i + pat.len()) =~= s.subrange(i + 1, i + 1 + pat.len()));
        }
        lemma_replace_absent(t, pat, rep);
        assert(seq![s[0]] + t =~= s);
    } else {
        assert(s =~= Seq::<char>::empty());
    }
}


proof fn lemma_with_first_contains(s: Seq<(Seq<char>, Seq<char>)>, i: int)
    requires
        0 <= i < s.len(),
    ensures
        with_first(s, s[i].0).len() > 0,
{
    s.lemma_filter_contains(has_first(s[i].0), i);
}

proof fn lemma_with_first_key(s: Seq<(Seq<char>, Seq<char>)>, k: Seq<char>)
    requires
        with_first(s, k).len() > 0,
    ensures
        exists|i: int| 0 <= i < s.len() && #[trigger] s[i].0 == k,
{
    let f = with_first(s, k);
    s.lemma_filter_pred(has_first(k), 0);
    assert(f.contains(f[0]));
    s.lemma_filter_contains_rev(has_first(k), f[0]);
    let i = choose|i: int| 0 <= i < s.len() && s[i] == f[0];
    assert(s[i].0 == k);
}

/// Two sequences of pairs, each sorted by first components, that hold the
/// same pairs in the same order for every first component are equal: a
/// stable sort has exactly one result.
pub proof fn law_stable_sort_unique(a: Seq<(Seq<char>, Seq<char>)>, b: Seq<(Seq<char>, Seq<char>)>)
    requires
        sorted_by_first(a),
        sorted_by_first(b),
        forall|k: Seq<char>| #[trigger] with_first(a, k) == with_first(b, k),
    ensures
        a == b,
    decreases a.len() + b.len(),
{
    if a.len() == 0 && b.len() == 0 {
        assert(a =~= b);
    } else if a.len() == 0 {
        lemma_with_first_contains(b, b.len() - 1);
        reveal_with_fuel(Seq::filter, 1);
        assert(with_first(a, b[b.len() - 1].0).len() == 0);
    } else if b.len() == 0 {
        lemma_with_first_contains(a, a.len() - 1);
        reveal_with_fuel(Seq::filter, 1);
        assert(with_first(b, a[a.len() - 1].0).len() == 0);
    } else {
        let x = a.last();
        let y = b.last();
        lemma_with_first_contains(a, a.len() - 1);
        lemma_with_first_contains(b, b.len() - 1);
        assert(with_first(b, x.0) == with_first(a, x.0));
        lemma_with_first_key(b, x.0);
        let ib = choose|i: int| 0 <= i < b.len() && #[trigger] b[i].0 == x.0;
        lemma_with_first_key(a, y.0);
        let ia = choose|i: int| 0 <= i < a.len() && #[trigger] a[i].0 == y.0;
        if ib < b.len() - 1 {
            assert(lex_le(b[ib].0, y.0));
        } else {
            lemma_lex_le_reflexive(y.0);
        }
        if ia < a.len() - 1 {
            assert(lex_le(a[ia].0, x.0));
        } else {
            lemma_lex_le_reflexive(x.0);
        }
        lemma_lex_le_antisymmetric(x.0, y.0);
        let ad = a.drop_last();
        let bd = b.drop_last();
        assert(a =~= ad.push(x));
        assert(b =~= bd.push(y));
        lemma_filter_push(ad, x, has_first(x.0));
        lemma_filter_push(bd, y, has_first(x.0));
        assert(with_first(a, x.0).last() == x);
        assert(with_first(b, x.0).last() == y);
        assert forall|k: Seq<char>| #[trigger] with_first(ad, k) == with_first(bd, k) by {
            lemma_filter_push(ad, x, has_first(k));
            lemma_filter_push(bd, y, has_first(k));
            if k == x.0 {
                assert(with_first(ad, k) =~= with_first(a, k).drop_last());
                assert(with_first(bd, k) =~= with_first(b, k).drop_last());
            }
        }
        assert forall|i: int, j: int| 0 <= i < j < ad.len() implies lex_le(#[trigger] ad[i].0, #[trigger] ad[j].0) by {
            assert(ad[i] == a[i] && ad[j] == a[j]);
        }
        assert forall|i: int, j: int| 0 <= i < j < bd.len() implies lex_le(#[trigger] bd[i].0, #[trigger] bd[j].0) by {
            assert(bd[i] == b[i] && bd[j] == b[j]);
        }
        law_stable_sort_unique(ad, bd);
    }
}

} // verus!
