//! Helpers on character sequences shared by the tokenizer, the generator
//! and the page assembler.

use vstd::prelude::*;

verus! {

/// Appends `c` to the end of `s`.
///
/// Trusted: wraps `String::push`, which the standard library documents as
/// appending the given character to the end of the string.
#[verifier::external_body]
pub(crate) fn push_char(s: &mut String, c: char)
    ensures
        final(s)@ == old(s)@.push(c),
{
    s.push(c);
}

/// The characters of `s`, in order.
pub fn to_chars(s: &str) -> (v: Vec<char>)
    ensures
        v@ == s@,
{
    let mut v: Vec<char> = Vec::new();
    for c in it: s.chars()
        invariant
            v@ == it.seq().take(it.index() as int),
    {
        v.push(c);
    }
    v
}

/// The string made of the first `n` characters of `v`, in order.
pub fn from_chars_prefix(v: &Vec<char>, n: usize) -> (s: String)
    requires
        n <= v.len(),
    ensures
        s@ == v@.subrange(0, n as int),
{
    let mut s = String::new();
    let mut i: usize = 0;
    while i < n
        invariant
            i <= n <= v.len(),
            s@ == v@.subrange(0, i as int),
        decreases n - i,
    {
        push_char(&mut s, v[i]);
        i = i + 1;
    }
    s
}

/// The string made of the characters of `v`, in order.
pub fn from_chars(v: &Vec<char>) -> (s: String)
    ensures
        s@ == v@,
{
    let s = from_chars_prefix(v, v.len());
    assert(v@.subrange(0, v.len() as int) =~= v@);
    s
}

/// The index of the first `c` in `s` at or after index `from`; the length
/// of `s` where there is none.
pub open spec fn first_at(s: Seq<char>, c: char, from: int) -> int
    decreases s.len() - from,
{
    if from < 0 || from >= s.len() {
        s.len() as int
    } else if s[from] == c {
        from
    } else {
        first_at(s, c, from + 1)
    }
}

/// The index of the first character other than `c` in `s` at or after
/// index `from`; the length of `s` where there is none.
pub open spec fn first_other(s: Seq<char>, c: char, from: int) -> int
    decreases s.len() - from,
{
    if from < 0 || from >= s.len() {
        s.len() as int
    } else if s[from] != c {
        from
    } else {
        first_other(s, c, from + 1)
    }
}

/// `first_at` lies between its starting index and the end.
pub proof fn lemma_first_at_bounds(s: Seq<char>, c: char, from: int)
    requires
        0 <= from <= s.len(),
    ensures
        from <= first_at(s, c, from) <= s.len(),
    decreases s.len() - from,
{
    if from < s.len() && s[from] != c {
        lemma_first_at_bounds(s, c, from + 1);
    }
}

/// `first_other` lies between its starting index and the end.
pub proof fn lemma_first_other_bounds(s: Seq<char>, c: char, from: int)
    requires
        0 <= from <= s.len(),
    ensures
        from <= first_other(s, c, from) <= s.len(),
    decreases s.len() - from,
{
    if from < s.len() && s[from] == c {
        lemma_first_other_bounds(s, c, from + 1);
    }
}

/// Whether `s` begins with `prefix`.
pub open spec fn has_prefix(s: Seq<char>, prefix: Seq<char>) -> bool {
    occurs_at(s, 0, prefix)
}

/// Whether `s` ends with `suffix`.
pub open spec fn has_suffix(s: Seq<char>, suffix: Seq<char>) -> bool {
    occurs_at(s, s.len() - suffix.len(), suffix)
}

/// `s` without `suffix` at its end; `s` itself where it does not end with
/// `suffix`.
pub open spec fn without_suffix(s: Seq<char>, suffix: Seq<char>) -> Seq<char> {
    if has_suffix(s, suffix) {
        s.subrange(0, s.len() - suffix.len())
    } else {
        s
    }
}

/// Whether `s` begins with `prefix`.
pub fn starts_with(s: &str, prefix: &str) -> (b: bool)
    ensures
        b == has_prefix(s@, prefix@),
{
    let text = to_chars(s);
    let pattern = to_chars(prefix);
    matches_at(&text, 0, &pattern)
}

/// Whether `s` ends with `suffix`.
pub fn ends_with(s: &str, suffix: &str) -> (b: bool)
    ensures
        b == has_suffix(s@, suffix@),
{
    let text = to_chars(s);
    let pattern = to_chars(suffix);
    pattern.len() <= text.len() && matches_at(&text, text.len() - pattern.len(), &pattern)
}

/// Removes `suffix` from the end of `s`, where `s` ends with it.
pub fn strip_suffix(s: &str, suffix: &str) -> (res: String)
    ensures
        res@ == without_suffix(s@, suffix@),
{
    let text = to_chars(s);
    let pattern = to_chars(suffix);
    if pattern.len() <= text.len() && matches_at(&text, text.len() - pattern.len(), &pattern) {
        from_chars_prefix(&text, text.len() - pattern.len())
    } else {
        from_chars(&text)
    }
}

/// Whether `pat` stands in `s` at index `i`.
pub open spec fn occurs_at(s: Seq<char>, i: int, pat: Seq<char>) -> bool {
    0 <= i && i + pat.len() <= s.len() && s.subrange(i, i + pat.len()) == pat
}

/// The part of `s` from index `i` on with every occurrence of `pat`
/// replaced by `with`. Occurrences are taken from left to right, and the
/// search goes on behind each one, so two that overlap count once. An empty
/// `pat` occurs nowhere.
pub open spec fn replaced_from(s: Seq<char>, pat: Seq<char>, with: Seq<char>, i: int) -> Seq<
    char,
>
    decreases s.len() - i,
{
    if i < 0 || i >= s.len() {
        Seq::empty()
    } else if pat.len() > 0 && occurs_at(s, i, pat) {
        with + replaced_from(s, pat, with, i + pat.len())
    } else {
        seq![s[i]] + replaced_from(s, pat, with, i + 1)
    }
}

/// `s` with every occurrence of `pat` replaced by `with`.
pub open spec fn replaced(s: Seq<char>, pat: Seq<char>, with: Seq<char>) -> Seq<char> {
    replaced_from(s, pat, with, 0)
}

/// Where `pat` occurs nowhere in `s` from index `i` on, that part of `s`
/// stays as it is.
pub proof fn lemma_replaced_absent(s: Seq<char>, pat: Seq<char>, with: Seq<char>, i: int)
    requires
        0 <= i <= s.len(),
        forall|j: int| i <= j < s.len() ==> !occurs_at(s, j, pat),
    ensures
        replaced_from(s, pat, with, i) == s.subrange(i, s.len() as int),
    decreases s.len() - i,
{
    if i < s.len() {
        lemma_replaced_absent(s, pat, with, i + 1);
        assert(seq![s[i]] + s.subrange(i + 1, s.len() as int) =~= s.subrange(i, s.len() as int));
    } else {
        assert(s.subrange(i, s.len() as int) =~= Seq::<char>::empty());
    }
}

/// A text in which `pat` occurs nowhere is left unchanged.
pub proof fn lemma_replaced_without_occurrence(s: Seq<char>, pat: Seq<char>, with: Seq<char>)
    requires
        forall|j: int| 0 <= j < s.len() ==> !occurs_at(s, j, pat),
    ensures
        replaced(s, pat, with) == s,
{
    lemma_replaced_absent(s, pat, with, 0);
    assert(s.subrange(0, s.len() as int) =~= s);
}

/// Replacing behind a prefix does not depend on the prefix: from index
/// `head.len() + k` of `head + tail` on, what comes out is what comes out of
/// `tail` from index `k` on.
pub proof fn lemma_replaced_behind_prefix(
    head: Seq<char>,
    tail: Seq<char>,
    pat: Seq<char>,
    with: Seq<char>,
    k: int,
)
    requires
        0 <= k <= tail.len(),
    ensures
        replaced_from(head + tail, pat, with, head.len() + k) == replaced_from(tail, pat, with, k),
    decreases tail.len() - k,
{
    let s = head + tail;
    let i = head.len() + k;
    if k < tail.len() {
        assert(s[i] == tail[k]);
        if k + pat.len() <= tail.len() {
            assert(s.subrange(i, i + pat.len()) =~= tail.subrange(k, k + pat.len()));
        }
        assert(occurs_at(s, i, pat) == occurs_at(tail, k, pat));
        if pat.len() > 0 && occurs_at(tail, k, pat) {
            lemma_replaced_behind_prefix(head, tail, pat, with, k + pat.len());
        } else {
            lemma_replaced_behind_prefix(head, tail, pat, with, k + 1);
        }
    }
}

/// Every occurrence is replaced, the first as the others: where `pat` is
/// not empty and occurs in `head + pat + tail` at no index before the end of
/// `head`, what comes out is `head`, then `with`, then `tail` with its own
/// occurrences replaced.
pub proof fn lemma_replaced_first_occurrence(
    head: Seq<char>,
    pat: Seq<char>,
    tail: Seq<char>,
    with: Seq<char>,
)
    requires
        pat.len() > 0,
        forall|j: int| 0 <= j < head.len() ==> !occurs_at(head + pat + tail, j, pat),
    ensures
        replaced(head + pat + tail, pat, with) == head + with + replaced(tail, pat, with),
{
    let s = head + pat + tail;
    lemma_replaced_behind_prefix(head + pat, tail, pat, with, 0);
    assert(s.subrange(head.len() as int, (head.len() + pat.len()) as int) =~= pat);
    assert(occurs_at(s, head.len() as int, pat));
    lemma_replaced_up_to_occurrence(s, pat, with, head.len() as int, 0);
    assert(s.subrange(0, head.len() as int) =~= head);
}

/// Where `pat` occurs in `s` at index `at` and at no index from `i` up to
/// `at`, the text from `i` up to `at` stays and `with` follows it.
proof fn lemma_replaced_up_to_occurrence(
    s: Seq<char>,
    pat: Seq<char>,
    with: Seq<char>,
    at: int,
    i: int,
)
    requires
        pat.len() > 0,
        0 <= i <= at,
        occurs_at(s, at, pat),
        forall|j: int| i <= j < at ==> !occurs_at(s, j, pat),
    ensures
        replaced_from(s, pat, with, i) == s.subrange(i, at) + with + replaced_from(
            s,
            pat,
            with,
            at + pat.len(),
        ),
    decreases at - i,
{
    if i < at {
        lemma_replaced_up_to_occurrence(s, pat, with, at, i + 1);
        assert(seq![s[i]] + (s.subrange(i + 1, at) + with + replaced_from(
            s,
            pat,
            with,
            at + pat.len(),
        )) =~= s.subrange(i, at) + with + replaced_from(s, pat, with, at + pat.len()));
    } else {
        assert(s.subrange(i, at) + with + replaced_from(s, pat, with, at + pat.len()) =~= with
            + replaced_from(s, pat, with, at + pat.len()));
    }
}

/// Whether `pat` stands in `s` at index `i`.
fn matches_at(s: &Vec<char>, i: usize, pat: &Vec<char>) -> (b: bool)
    requires
        i <= s.len(),
    ensures
        b == occurs_at(s@, i as int, pat@),
{
    if pat.len() > s.len() - i {
        return false;
    }
    let mut k: usize = 0;
    while k < pat.len()
        invariant
            i + pat.len() <= s.len(),
            k <= pat.len(),
            forall|j: int| 0 <= j < k ==> s@[i + j] == pat@[j],
        decreases pat.len() - k,
    {
        if s[i + k] != pat[k] {
            assert(s@.subrange(i as int, i + pat.len())[k as int] == s@[i + k]);
            return false;
        }
        k = k + 1;
    }
    assert(s@.subrange(i as int, i + pat.len()) =~= pat@);
    true
}

/// Replaces every occurrence of `pat` in `s` by `with`, from left to
/// right.
pub fn replace(s: &str, pat: &str, with: &str) -> (res: String)
    ensures
        res@ == replaced(s@, pat@, with@),
{
    let text = to_chars(s);
    let pattern = to_chars(pat);
    let mut res = String::new();
    let mut i: usize = 0;
    while i < text.len()
        invariant
            text@ == s@,
            pattern@ == pat@,
            i <= text.len(),
            replaced(s@, pat@, with@) == res@ + replaced_from(s@, pat@, with@, i as int),
        decreases text.len() - i,
    {
        let ghost before = res@;
        if pattern.len() > 0 && matches_at(&text, i, &pattern) {
            res.append(with);
            i = i + pattern.len();
            assert(before + (with@ + replaced_from(s@, pat@, with@, i as int)) =~= res@
                + replaced_from(s@, pat@, with@, i as int));
        } else {
            push_char(&mut res, text[i]);
            i = i + 1;
            assert(before + (seq![s@[i - 1]] + replaced_from(s@, pat@, with@, i as int)) =~= res@
                + replaced_from(s@, pat@, with@, i as int));
        }
    }
    assert(res@ + Seq::<char>::empty() =~= res@);
    res
}

/// The character for the decimal digit `d`.
pub open spec fn digit_char(d: int) -> char {
    if d == 0 {
        '0'
    } else if d == 1 {
        '1'
    } else if d == 2 {
        '2'
    } else if d == 3 {
        '3'
    } else if d == 4 {
        '4'
    } else if d == 5 {
        '5'
    } else if d == 6 {
        '6'
    } else if d == 7 {
        '7'
    } else if d == 8 {
        '8'
    } else {
        '9'
    }
}

/// The decimal numeral of `n`, without leading zeros.
pub open spec fn decimal(n: nat) -> Seq<char>
    decreases n,
{
    if n < 10 {
        seq![digit_char(n as int)]
    } else {
        decimal(n / 10).push(digit_char((n % 10) as int))
    }
}

fn digit_of(d: usize) -> (c: char)
    requires
        d < 10,
    ensures
        c == digit_char(d as int),
{
    if d == 0 {
        '0'
    } else if d == 1 {
        '1'
    } else if d == 2 {
        '2'
    } else if d == 3 {
        '3'
    } else if d == 4 {
        '4'
    } else if d == 5 {
        '5'
    } else if d == 6 {
        '6'
    } else if d == 7 {
        '7'
    } else if d == 8 {
        '8'
    } else {
        '9'
    }
}

/// Writes `n` as a decimal numeral.
pub fn decimal_string(n: usize) -> (s: String)
    ensures
        s@ == decimal(n as nat),
    decreases n,
{
    if n < 10 {
        let mut s = String::new();
        push_char(&mut s, digit_of(n));
        s
    } else {
        let mut s = decimal_string(n / 10);
        push_char(&mut s, digit_of(n % 10));
        s
    }
}

} // verus!
