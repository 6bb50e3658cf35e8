//! Line classifier: maps one line of the external tool's output (as bytes)
//! to a recognized marker or a progress value.
//!
//! Progress is measured in permille (tenths of a percent), so `452` stands
//! for `45.2%`; this keeps the model in integers.
use vstd::prelude::*;

verus! {

/// True when `b` is an ASCII whitespace byte, the delimiters that separate
/// words of a log line.
pub open spec fn is_ws(b: u8) -> bool {
    b == 32 || b == 9 || b == 10 || b == 13 || b == 11 || b == 12
}

/// True when `b` is an ASCII decimal digit.
pub open spec fn is_digit(b: u8) -> bool {
    48 <= b <= 57
}

/// The pattern `p` occurs in `s` starting at index `i`.
pub open spec fn match_at(s: Seq<u8>, p: Seq<u8>, i: int) -> bool {
    0 <= i && i + p.len() <= s.len() && s.subrange(i, i + p.len() as int) == p
}

/// The pattern `p` occurs somewhere in `s`.
pub open spec fn contains_sub(s: Seq<u8>, p: Seq<u8>) -> bool {
    exists|i: int| match_at(s, p, i)
}

/// Index of the first occurrence of `p` in `s` at or after `i`, if any.
pub open spec fn find_from(s: Seq<u8>, p: Seq<u8>, i: int) -> Option<int>
    decreases s.len() - i,
{
    if i < 0 || i + p.len() > s.len() {
        None
    } else if p.len() == 0 || match_at(s, p, i) {
        Some(i)
    } else {
        find_from(s, p, i + 1)
    }
}

/// `find_from` finds exactly the first occurrence: a `Some` is a match with
/// none earlier, a `None` means no match at or after `i`.
pub proof fn lemma_find_from(s: Seq<u8>, p: Seq<u8>, i: int)
    requires
        0 <= i,
    ensures
        match find_from(s, p, i) {
            Some(j) => match_at(s, p, j) && i <= j && forall|k: int| i <= k < j ==> !match_at(s, p, k),
            None => forall|k: int| k >= i ==> !match_at(s, p, k),
        },
    decreases s.len() - i,
{
    if i + p.len() > s.len() {
        assert forall|k: int| k >= i implies !match_at(s, p, k) by {}
    } else if p.len() == 0 {
        assert(s.subrange(i, i) =~= p);
        assert(match_at(s, p, i));
    } else if match_at(s, p, i) {
    } else {
        lemma_find_from(s, p, i + 1);
    }
}

/// Whether `p` occurs at position `i` of `s`, checked byte by byte.
pub(crate) fn is_match_at(s: &[u8], p: &[u8], i: usize) -> (r: bool)
    requires
        i + p@.len() <= s@.len(),
    ensures
        r == match_at(s@, p@, i as int),
{
    let n = s.len();
    let mut j: usize = 0;
    while j < p.len()
        invariant
            n == s@.len(),
            i + p@.len() <= n,
            0 <= j <= p@.len(),
            forall|k: int| 0 <= k < j ==> s@[i + k] == p@[k],
        decreases p@.len() - j,
    {
        if s[i + j] != p[j] {
            assert(s@.subrange(i as int, i + p@.len() as int)[j as int] != p@[j as int]);
            return false;
        }
        j = j + 1;
    }
    assert(s@.subrange(i as int, i + p@.len() as int) =~= p@);
    true
}

/// Finds the first occurrence of `p` in `s`, if any.
pub(crate) fn find_first(s: &[u8], p: &[u8]) -> (r: Option<usize>)
    ensures
        match r {
            Some(i) => find_from(s@, p@, 0) == Some(i as int),
            None => find_from(s@, p@, 0) is None,
        },
{
    let n = s.len();
    let m = p.len();
    if m > n {
        return None;
    }
    if m == 0 {
        proof {
            assert(s@.subrange(0, 0) =~= p@);
        }
        return Some(0);
    }
    let mut i: usize = 0;
    while i <= n - m
        invariant
            n == s@.len(),
            m == p@.len(),
            1 <= m <= n,
            0 <= i <= n - m + 1,
            find_from(s@, p@, 0) == find_from(s@, p@, i as int),
        decreases n - i,
    {
        if is_match_at(s, p, i) {
            return Some(i);
        }
        i = i + 1;
    }
    None
}

/// Whether `s` contains the pattern `p`.
pub(crate) fn contains_pattern(s: &[u8], p: &[u8]) -> (r: bool)
    ensures
        r == contains_sub(s@, p@),
{
    let r = find_first(s, p);
    proof {
        lemma_find_from(s@, p@, 0);
    }
    match r {
        Some(i) => {
            assert(match_at(s@, p@, i as int));
            true
        }
        None => {
            assert forall|i: int| !match_at(s@, p@, i) by {
                if 0 <= i {
                    lemma_find_from(s@, p@, 0);
                }
            }
            false
        }
    }
}

/// The `[download]` marker that gates all progress parsing.
pub open spec fn download_marker() -> Seq<u8> {
    seq![91u8, 100, 111, 119, 110, 108, 111, 97, 100, 93]
}

/// Bytes of the `[download]` marker.
pub(crate) fn download_marker_bytes() -> (r: Vec<u8>)
    ensures
        r@ == download_marker(),
{
    let r: Vec<u8> = vec![91u8, 100, 111, 119, 110, 108, 111, 97, 100, 93];
    proof {
        assert(r@ =~= download_marker());
    }
    r
}

/// The `[ExtractAudio]` marker: the audio-extraction stage has begun.
pub open spec fn extract_marker() -> Seq<u8> {
    seq![91u8, 69, 120, 116, 114, 97, 99, 116, 65, 117, 100, 105, 111, 93]
}

/// Bytes of the `[ExtractAudio]` marker.
pub(crate) fn extract_marker_bytes() -> (r: Vec<u8>)
    ensures
        r@ == extract_marker(),
{
    let r: Vec<u8> = vec![91u8, 69, 120, 116, 114, 97, 99, 116, 65, 117, 100, 105, 111, 93];
    proof {
        assert(r@ =~= extract_marker());
    }
    r
}

/// The `[youtube]` marker: the source site tag, seen while fetching info.
pub open spec fn source_marker() -> Seq<u8> {
    seq![91u8, 121, 111, 117, 116, 117, 98, 101, 93]
}

/// Bytes of the `[youtube]` marker.
pub(crate) fn source_marker_bytes() -> (r: Vec<u8>)
    ensures
        r@ == source_marker(),
{
    let r: Vec<u8> = vec![91u8, 121, 111, 117, 116, 117, 98, 101, 93];
    proof {
        assert(r@ =~= source_marker());
    }
    r
}

/// The `[hlsnative]` marker: streaming preparation.
pub open spec fn stream_marker() -> Seq<u8> {
    seq![91u8, 104, 108, 115, 110, 97, 116, 105, 118, 101, 93]
}

/// Bytes of the `[hlsnative]` marker.
pub(crate) fn stream_marker_bytes() -> (r: Vec<u8>)
    ensures
        r@ == stream_marker(),
{
    let r: Vec<u8> = vec![91u8, 104, 108, 115, 110, 97, 116, 105, 118, 101, 93];
    proof {
        assert(r@ =~= stream_marker());
    }
    r
}

/// The `[info]` marker: an informational line.
pub open spec fn info_marker() -> Seq<u8> {
    seq![91u8, 105, 110, 102, 111, 93]
}

/// Bytes of the `[info]` marker.
pub(crate) fn info_marker_bytes() -> (r: Vec<u8>)
    ensures
        r@ == info_marker(),
{
    let r: Vec<u8> = vec![91u8, 105, 110, 102, 111, 93];
    proof {
        assert(r@ =~= info_marker());
    }
    r
}

/// The `Deleting original` marker: cleanup of intermediate files.
pub open spec fn cleanup_marker() -> Seq<u8> {
    seq![68u8, 101, 108, 101, 116, 105, 110, 103, 32, 111, 114, 105, 103, 105, 110, 97, 108]
}

/// Bytes of the `Deleting original` marker.
pub(crate) fn cleanup_marker_bytes() -> (r: Vec<u8>)
    ensures
        r@ == cleanup_marker(),
{
    let r: Vec<u8> = vec![68u8, 101, 108, 101, 116, 105, 110, 103, 32, 111, 114, 105, 103, 105, 110, 97, 108];
    proof {
        assert(r@ =~= cleanup_marker());
    }
    r
}

/// Index of the first byte at or after `i` that is not a decimal digit.
pub open spec fn digits_end(d: Seq<u8>, i: int) -> int
    decreases d.len() - i,
{
    if i < 0 || i >= d.len() || !is_digit(d[i]) {
        i
    } else {
        digits_end(d, i + 1)
    }
}

/// `digits_end` stays within bounds and skips only digits.
pub proof fn lemma_digits_end(d: Seq<u8>, i: int)
    requires
        0 <= i <= d.len(),
    ensures
        i <= digits_end(d, i) <= d.len(),
        forall|k: int| i <= k < digits_end(d, i) ==> is_digit(d[k]),
        digits_end(d, i) < d.len() ==> !is_digit(d[digits_end(d, i)]),
    decreases d.len() - i,
{
    if i < d.len() && is_digit(d[i]) {
        lemma_digits_end(d, i + 1);
    }
}

/// Value of a sequence of decimal digit bytes, most significant first.
pub open spec fn digits_val(d: Seq<u8>) -> int
    decreases d.len(),
{
    if d.len() == 0 {
        0
    } else {
        digits_val(d.drop_last()) * 10 + (d[d.len() - 1] - 48)
    }
}

/// Ten to the power `n`.
pub open spec fn pow10(n: nat) -> int
    decreases n,
{
    if n == 0 {
        1
    } else {
        10 * pow10((n - 1) as nat)
    }
}

/// A digit sequence's value is nonnegative and below ten to its length.
pub proof fn lemma_digits_val_bound(d: Seq<u8>)
    requires
        forall|k: int| 0 <= k < d.len() ==> is_digit(d[k]),
    ensures
        0 <= digits_val(d) < pow10(d.len()),
    decreases d.len(),
{
    if d.len() > 0 {
        lemma_digits_val_bound(d.drop_last());
    }
}

/// The digit sequence `d` is a well-formed decimal number: one to seven
/// integer digits, optionally followed by a point and more digits.
pub open spec fn dec_wf(d: Seq<u8>) -> bool {
    let k = digits_end(d, 0);
    1 <= k <= 7 && (k == d.len() || (d[k] == 46 && forall|m: int| k < m < d.len() ==> is_digit(d[m])))
}

/// Value of a well-formed decimal number in tenths: the integer part times
/// ten plus the first fraction digit (further fraction digits are dropped).
pub open spec fn dec_tenths(d: Seq<u8>) -> int {
    let k = digits_end(d, 0);
    digits_val(d.subrange(0, k)) * 10 + if k + 1 < d.len() {
        (d[k + 1] - 48) as int
    } else {
        0
    }
}

/// Parses a well-formed decimal number into tenths.
pub(crate) fn parse_dec_tenths(d: &[u8]) -> (r: Option<u64>)
    ensures
        match r {
            Some(v) => dec_wf(d@) && v as int == dec_tenths(d@),
            None => !dec_wf(d@),
        },
{
    let n = d.len();
    let mut k: usize = 0;
    let mut acc: u64 = 0;
    while k < n && k < 8 && 48 <= d[k] && d[k] <= 57
        invariant
            n == d@.len(),
            0 <= k <= n,
            k <= 8,
            digits_end(d@, 0) == digits_end(d@, k as int),
            forall|m: int| 0 <= m < k ==> is_digit(d@[m]),
            acc as int == digits_val(d@.subrange(0, k as int)),
            0 <= acc < 100000000,
        decreases n - k,
    {
        proof {
            assert(d@.subrange(0, k + 1).drop_last() =~= d@.subrange(0, k as int));
            lemma_digits_val_bound(d@.subrange(0, k + 1));
            reveal_with_fuel(pow10, 9);
            assert(pow10(8) == 100000000);
            lemma_pow10_le(d@.subrange(0, k + 1).len() as nat, 8);
        }
        acc = acc * 10 + ((d[k] - 48) as u64);
        k = k + 1;
    }
    if k == 8 && k < n && 48 <= d[k] && d[k] <= 57 {
        proof {
            lemma_digits_end(d@, 9);
            assert(digits_end(d@, 8) == digits_end(d@, 9));
        }
        return None;
    }
    proof {
        assert(digits_end(d@, k as int) == k);
    }
    if k == 0 {
        return None;
    }
    if k == 8 {
        return None;
    }
    let int_tenths = acc * 10;
    if k == n {
        return Some(int_tenths);
    }
    if d[k] != 46 {
        return None;
    }
    let mut m: usize = k + 1;
    while m < n
        invariant
            n == d@.len(),
            1 <= k <= 7,
            k < n,
            k + 1 <= m <= n,
            digits_end(d@, 0) == k as int,
            d@[k as int] == 46,
            forall|q: int| k < q < m ==> is_digit(d@[q]),
            int_tenths as int == digits_val(d@.subrange(0, k as int)) * 10,
            int_tenths < 1000000000,
        decreases n - m,
    {
        if !(48 <= d[m] && d[m] <= 57) {
            return None;
        }
        m = m + 1;
    }
    if k + 1 < n {
        Some(int_tenths + ((d[k + 1] - 48) as u64))
    } else {
        Some(int_tenths)
    }
}

/// `pow10` grows with its exponent.
pub proof fn lemma_pow10_le(a: nat, b: nat)
    requires
        a <= b,
    ensures
        pow10(a) <= pow10(b),
        pow10(a) >= 1,
    decreases b,
{
    if b == 0 {
    } else if a == b {
        lemma_pow10_le((a - 1) as nat, (b - 1) as nat);
    } else {
        lemma_pow10_le(a, (b - 1) as nat);
    }
}

/// Drops every trailing `%` byte from a word.
pub open spec fn strip_pct(w: Seq<u8>) -> Seq<u8>
    decreases w.len(),
{
    if w.len() > 0 && w[w.len() - 1] == 37 {
        strip_pct(w.drop_last())
    } else {
        w
    }
}

/// The word `w` is a percentage token: it ends in `%` and what precedes the
/// trailing `%` signs is a well-formed decimal number.
pub open spec fn pct_word_wf(w: Seq<u8>) -> bool {
    w.len() > 0 && w[w.len() - 1] == 37 && dec_wf(strip_pct(w))
}

/// Value of a percentage token, in tenths of a percent.
pub open spec fn pct_word_val(w: Seq<u8>) -> int {
    dec_tenths(strip_pct(w))
}

/// Parses a percentage token into tenths of a percent.
pub(crate) fn parse_pct_word(w: &[u8]) -> (r: Option<u64>)
    ensures
        match r {
            Some(v) => pct_word_wf(w@) && v as int == pct_word_val(w@),
            None => !pct_word_wf(w@),
        },
{
    let n = w.len();
    if n == 0 || w[n - 1] != 37 {
        return None;
    }
    let mut e: usize = n;
    proof {
        assert(w@.subrange(0, n as int) =~= w@);
    }
    while e > 0 && w[e - 1] == 37
        invariant
            n == w@.len(),
            0 <= e <= n,
            strip_pct(w@) == strip_pct(w@.subrange(0, e as int)),
        decreases e,
    {
        proof {
            assert(w@.subrange(0, e as int).drop_last() =~= w@.subrange(0, e - 1));
        }
        e = e - 1;
    }
    proof {
        assert(strip_pct(w@.subrange(0, e as int)) == w@.subrange(0, e as int));
    }
    let mut d: Vec<u8> = Vec::new();
    let mut q: usize = 0;
    while q < e
        invariant
            n == w@.len(),
            0 <= q <= e <= n,
            d@.len() == q,
            forall|t: int| 0 <= t < q ==> d@[t] == w@[t],
        decreases e - q,
    {
        d.push(w[q]);
        q = q + 1;
    }
    proof {
        assert(d@ =~= w@.subrange(0, e as int));
    }
    parse_dec_tenths(d.as_slice())
}

/// Index just past the run of non-whitespace bytes that starts at `i`.
pub open spec fn word_end(s: Seq<u8>, i: int) -> int
    decreases s.len() - i,
{
    if i < 0 || i >= s.len() || is_ws(s[i]) {
        i
    } else {
        word_end(s, i + 1)
    }
}

/// `word_end` stays within bounds, makes progress on a non-whitespace byte,
/// skips only non-whitespace, and stops at whitespace or the end.
pub proof fn lemma_word_end(s: Seq<u8>, i: int)
    requires
        0 <= i <= s.len(),
    ensures
        i <= word_end(s, i) <= s.len(),
        i < s.len() && !is_ws(s[i]) ==> word_end(s, i) > i,
        forall|k: int| i <= k < word_end(s, i) ==> !is_ws(s[k]),
        word_end(s, i) < s.len() ==> is_ws(s[word_end(s, i)]),
    decreases s.len() - i,
{
    if i < s.len() && !is_ws(s[i]) {
        lemma_word_end(s, i + 1);
    }
}

/// The range `[i, j)` is a maximal whitespace-delimited word of `s`.
pub open spec fn word_at(s: Seq<u8>, i: int, j: int) -> bool {
    0 <= i < j <= s.len() && (i == 0 || is_ws(s[i - 1])) && (j == s.len() || is_ws(s[j]))
        && (forall|k: int| i <= k < j ==> !is_ws(s[k]))
}

/// A maximal word determines `word_end` at its start.
pub proof fn lemma_word_end_of_word(s: Seq<u8>, i: int, j: int)
    requires
        0 <= i <= j <= s.len(),
        forall|k: int| i <= k < j ==> !is_ws(s[k]),
        j == s.len() || is_ws(s[j]),
    ensures
        word_end(s, i) == j,
    decreases j - i,
{
    if i < j {
        lemma_word_end_of_word(s, i + 1, j);
    }
}

/// Value in tenths of a percent of the first percentage token found when
/// scanning the words of `s` from index `i` on, if any.
pub open spec fn percent_scan(s: Seq<u8>, i: int) -> Option<int>
    decreases s.len() - i,
    via percent_scan_dec
{
    if i < 0 || i >= s.len() {
        None
    } else if is_ws(s[i]) {
        percent_scan(s, i + 1)
    } else {
        let j = word_end(s, i);
        if pct_word_wf(s.subrange(i, j)) {
            Some(pct_word_val(s.subrange(i, j)))
        } else {
            percent_scan(s, j)
        }
    }
}

#[via_fn]
proof fn percent_scan_dec(s: Seq<u8>, i: int) {
    if 0 <= i && i < s.len() && !is_ws(s[i]) {
        lemma_word_end(s, i);
    }
}

/// Finds the first percentage token among the words of `s`.
pub(crate) fn scan_percent(s: &[u8]) -> (r: Option<u64>)
    ensures
        match r {
            Some(v) => percent_scan(s@, 0) == Some(v as int),
            None => percent_scan(s@, 0) is None,
        },
{
    let n = s.len();
    let mut i: usize = 0;
    while i < n
        invariant
            n == s@.len(),
            0 <= i <= n,
            percent_scan(s@, 0) == percent_scan(s@, i as int),
        decreases n - i,
    {
        if is_ws_byte(s[i]) {
            i = i + 1;
        } else {
            let mut j: usize = i;
            while j < n && !is_ws_byte_at(s, j)
                invariant
                    n == s@.len(),
                    0 <= i <= j <= n,
                    word_end(s@, i as int) == word_end(s@, j as int),
                    forall|k: int| i <= k < j ==> !is_ws(s@[k]),
                decreases n - j,
            {
                j = j + 1;
            }
            proof {
                assert(word_end(s@, j as int) == j);
            }
            let mut w: Vec<u8> = Vec::new();
            let mut q: usize = i;
            while q < j
                invariant
                    n == s@.len(),
                    0 <= i <= q <= j <= n,
                    w@.len() == q - i,
                    forall|t: int| 0 <= t < q - i ==> w@[t] == s@[i + t],
                decreases j - q,
            {
                w.push(s[q]);
                q = q + 1;
            }
            proof {
                assert(w@ =~= s@.subrange(i as int, j as int));
            }
            match parse_pct_word(w.as_slice()) {
                Some(v) => {
                    return Some(v);
                }
                None => {
                    proof {
                        lemma_word_end(s@, i as int);
                    }
                    i = j;
                }
            }
        }
    }
    None
}

/// Decides whether the byte at index `q` of `s` is ASCII whitespace.
fn is_ws_byte_at(s: &[u8], q: usize) -> (r: bool)
    requires
        q < s@.len(),
    ensures
        r == is_ws(s@[q as int]),
{
    is_ws_byte(s[q])
}

/// Decides whether a byte is an ASCII whitespace character.
pub(crate) fn is_ws_byte(b: u8) -> (r: bool)
    ensures
        r == is_ws(b),
{
    b == 32 || b == 9 || b == 10 || b == 13 || b == 11 || b == 12
}

/// The `frag` marker that introduces a fragment count.
pub open spec fn frag_marker() -> Seq<u8> {
    seq![102u8, 114, 97, 103]
}

/// Bytes of the `frag` marker.
pub(crate) fn frag_marker_bytes() -> (r: Vec<u8>)
    ensures
        r@ == frag_marker(),
{
    let r: Vec<u8> = vec![102u8, 114, 97, 103];
    proof {
        assert(r@ =~= frag_marker());
    }
    r
}

/// `s` with leading whitespace removed.
pub open spec fn trim_start_ws(s: Seq<u8>) -> Seq<u8>
    decreases s.len(),
{
    if s.len() > 0 && is_ws(s[0]) {
        trim_start_ws(s.drop_first())
    } else {
        s
    }
}

/// `s` with leading `c` bytes removed.
pub open spec fn trim_start_ch(s: Seq<u8>, c: u8) -> Seq<u8>
    decreases s.len(),
{
    if s.len() > 0 && s[0] == c {
        trim_start_ch(s.drop_first(), c)
    } else {
        s
    }
}

/// `s` with trailing `c` bytes removed.
pub open spec fn trim_end_ch(s: Seq<u8>, c: u8) -> Seq<u8>
    decreases s.len(),
{
    if s.len() > 0 && s[s.len() - 1] == c {
        trim_end_ch(s.drop_last(), c)
    } else {
        s
    }
}

/// `s` with `c` bytes removed from both ends.
pub open spec fn trim_ch_seq(s: Seq<u8>, c: u8) -> Seq<u8> {
    trim_end_ch(trim_start_ch(s, c), c)
}

/// Number of occurrences of the byte `c` in `s`.
pub open spec fn count_byte(s: Seq<u8>, c: u8) -> int
    decreases s.len(),
{
    if s.len() == 0 {
        0
    } else {
        count_byte(s.drop_last(), c) + if s[s.len() - 1] == c {
            1int
        } else {
            0int
        }
    }
}

/// Index of the first occurrence of the byte `c` in `s` at or after `i`.
pub open spec fn find_byte(s: Seq<u8>, c: u8, i: int) -> Option<int>
    decreases s.len() - i,
{
    if i < 0 || i >= s.len() {
        None
    } else if s[i] == c {
        Some(i)
    } else {
        find_byte(s, c, i + 1)
    }
}

/// A fragment count: one to seven decimal digits.
pub open spec fn frag_num_wf(d: Seq<u8>) -> bool {
    1 <= d.len() <= 7 && forall|k: int| 0 <= k < d.len() ==> is_digit(d[k])
}

/// The fragment token of a line whose first `frag` marker starts at `fi`:
/// the next whitespace-delimited word after the marker, trimmed of
/// parentheses. The token may stand anywhere in the line.
pub open spec fn frag_token_of(s: Seq<u8>, fi: int) -> Seq<u8> {
    let u = trim_start_ws(s.subrange(fi + 4, s.len() as int));
    trim_ch_seq(u.subrange(0, word_end(u, 0)), 41)
}

/// Progress in tenths of a percent derived from a `frag <current>/<total>`
/// token: the word after the first `frag`, trimmed of parentheses, split at
/// its single `/`, both parts read as fragment counts; the value is current
/// over total as a (truncated) percentage in tenths.
pub open spec fn frag_result(s: Seq<u8>) -> Option<int> {
    match find_from(s, frag_marker(), 0) {
        None => None,
        Some(fi) => {
            let t = frag_token_of(s, fi);
            if count_byte(t, 47) == 1 {
                match find_byte(t, 47, 0) {
                    None => None,
                    Some(si) => {
                        let p0 = t.subrange(0, si);
                        let p1 = t.subrange(si + 1, t.len() as int);
                        if frag_num_wf(p0) && frag_num_wf(p1) && digits_val(p1) > 0 {
                            Some(digits_val(p0) * 1000 / digits_val(p1))
                        } else {
                            None
                        }
                    }
                }
            } else {
                None
            }
        }
    }
}

/// Copies `s[lo..hi]` into a fresh vector.
fn copy_range(s: &[u8], lo: usize, hi: usize) -> (r: Vec<u8>)
    requires
        lo <= hi <= s@.len(),
    ensures
        r@ == s@.subrange(lo as int, hi as int),
{
    let mut r: Vec<u8> = Vec::new();
    let mut q: usize = lo;
    while q < hi
        invariant
            lo <= q <= hi <= s@.len(),
            r@.len() == q - lo,
            forall|t: int| 0 <= t < q - lo ==> r@[t] == s@[lo + t],
        decreases hi - q,
    {
        r.push(s[q]);
        q = q + 1;
    }
    proof {
        assert(r@ =~= s@.subrange(lo as int, hi as int));
    }
    r
}

/// Extracts the whitespace-delimited word that the text after leading
/// whitespace of `v` begins with (empty if `v` is blank).
pub(crate) fn first_word_vec(v: &[u8]) -> (r: Vec<u8>)
    ensures
        r@ == trim_start_ws(v@).subrange(0, word_end(trim_start_ws(v@), 0)),
{
    let n = v.len();
    let mut a: usize = 0;
    proof {
        assert(v@.subrange(0, n as int) =~= v@);
    }
    while a < n && is_ws_byte_at(v, a)
        invariant
            n == v@.len(),
            0 <= a <= n,
            trim_start_ws(v@) == trim_start_ws(v@.subrange(a as int, n as int)),
        decreases n - a,
    {
        proof {
            assert(v@.subrange(a as int, n as int).drop_first() =~= v@.subrange(a + 1, n as int));
        }
        a = a + 1;
    }
    proof {
        assert(trim_start_ws(v@) == v@.subrange(a as int, n as int));
    }
    let ghost u = v@.subrange(a as int, n as int);
    let mut b: usize = a;
    while b < n && !is_ws_byte_at(v, b)
        invariant
            n == v@.len(),
            0 <= a <= b <= n,
            forall|k: int| a <= k < b ==> !is_ws(v@[k]),
        decreases n - b,
    {
        b = b + 1;
    }
    proof {
        assert(forall|k: int| 0 <= k < u.len() ==> u[k] == v@[a + k]);
        lemma_word_end_of_word(u, 0, b - a);
        assert(u.subrange(0, b - a) =~= v@.subrange(a as int, b as int));
    }
    copy_range(v, a, b)
}

/// Removes the byte `c` from both ends of `v`.
pub(crate) fn trim_ch_vec(v: &[u8], c: u8) -> (r: Vec<u8>)
    ensures
        r@ == trim_ch_seq(v@, c),
{
    let n = v.len();
    let mut a: usize = 0;
    proof {
        assert(v@.subrange(0, n as int) =~= v@);
    }
    while a < n && v[a] == c
        invariant
            n == v@.len(),
            0 <= a <= n,
            trim_start_ch(v@, c) == trim_start_ch(v@.subrange(a as int, n as int), c),
        decreases n - a,
    {
        proof {
            assert(v@.subrange(a as int, n as int).drop_first() =~= v@.subrange(a + 1, n as int));
        }
        a = a + 1;
    }
    proof {
        assert(trim_start_ch(v@, c) == v@.subrange(a as int, n as int));
    }
    let mut b: usize = n;
    while b > a && v[b - 1] == c
        invariant
            n == v@.len(),
            0 <= a <= b <= n,
            trim_start_ch(v@, c) == v@.subrange(a as int, n as int),
            trim_end_ch(v@.subrange(a as int, n as int), c) == trim_end_ch(v@.subrange(a as int, b as int), c),
        decreases b,
    {
        proof {
            assert(v@.subrange(a as int, b as int).drop_last() =~= v@.subrange(a as int, b - 1));
        }
        b = b - 1;
    }
    proof {
        assert(trim_end_ch(v@.subrange(a as int, b as int), c) == v@.subrange(a as int, b as int));
    }
    copy_range(v, a, b)
}

/// Counts the occurrences of the byte `c` in `v`.
pub(crate) fn count_byte_exec(v: &[u8], c: u8) -> (r: u64)
    ensures
        r as int == count_byte(v@, c),
{
    let n = v.len();
    let mut i: usize = 0;
    let mut cnt: u64 = 0;
    while i < n
        invariant
            n == v@.len(),
            0 <= i <= n,
            cnt as int == count_byte(v@.subrange(0, i as int), c),
            cnt <= i,
        decreases n - i,
    {
        proof {
            assert(v@.subrange(0, i + 1).drop_last() =~= v@.subrange(0, i as int));
        }
        if v[i] == c {
            cnt = cnt + 1;
        }
        i = i + 1;
    }
    proof {
        assert(v@.subrange(0, n as int) =~= v@);
    }
    cnt
}

/// Finds the first occurrence of the byte `c` in `v`.
pub(crate) fn find_byte_exec(v: &[u8], c: u8) -> (r: Option<usize>)
    ensures
        match r {
            Some(i) => find_byte(v@, c, 0) == Some(i as int),
            None => find_byte(v@, c, 0) is None,
        },
{
    let n = v.len();
    let mut i: usize = 0;
    while i < n
        invariant
            n == v@.len(),
            0 <= i <= n,
            find_byte(v@, c, 0) == find_byte(v@, c, i as int),
        decreases n - i,
    {
        if v[i] == c {
            return Some(i);
        }
        i = i + 1;
    }
    None
}

/// Parses a fragment count: one to seven decimal digits.
pub(crate) fn parse_frag_num(d: &[u8]) -> (r: Option<u64>)
    ensures
        match r {
            Some(v) => frag_num_wf(d@) && v as int == digits_val(d@),
            None => !frag_num_wf(d@),
        },
{
    let n = d.len();
    if n == 0 || n > 7 {
        return None;
    }
    let mut k: usize = 0;
    let mut acc: u64 = 0;
    while k < n
        invariant
            n == d@.len(),
            1 <= n <= 7,
            0 <= k <= n,
            forall|m: int| 0 <= m < k ==> is_digit(d@[m]),
            acc as int == digits_val(d@.subrange(0, k as int)),
            0 <= acc < 100000000,
        decreases n - k,
    {
        if !(48 <= d[k] && d[k] <= 57) {
            return None;
        }
        proof {
            assert(d@.subrange(0, k + 1).drop_last() =~= d@.subrange(0, k as int));
            lemma_digits_val_bound(d@.subrange(0, k + 1));
            reveal_with_fuel(pow10, 9);
            lemma_pow10_le(d@.subrange(0, k + 1).len() as nat, 8);
        }
        acc = acc * 10 + ((d[k] - 48) as u64);
        k = k + 1;
    }
    proof {
        assert(d@.subrange(0, n as int) =~= d@);
    }
    Some(acc)
}

/// Parses the fragment-count progress of a line, if it has one.
pub(crate) fn parse_frag(s: &[u8]) -> (r: Option<u64>)
    ensures
        match r {
            Some(v) => frag_result(s@) == Some(v as int),
            None => frag_result(s@) is None,
        },
{
    let fm = frag_marker_bytes();
    let found = find_first(s, fm.as_slice());
    let fi = match found {
        None => {
            return None;
        },
        Some(fi) => fi,
    };
    proof {
        lemma_find_from(s@, frag_marker(), 0);
    }
    let n = s.len();
    let rest = copy_range(s, fi + 4, n);
    let w = first_word_vec(rest.as_slice());
    let t = trim_ch_vec(w.as_slice(), 41);
    proof {
        assert(t@ == frag_token_of(s@, fi as int));
    }
    let cnt = count_byte_exec(t.as_slice(), 47);
    if cnt != 1 {
        return None;
    }
    let si = match find_byte_exec(t.as_slice(), 47) {
        None => {
            return None;
        },
        Some(si) => si,
    };
    proof {
        lemma_find_byte_in_range(t@, 47, 0);
        assert(si < t@.len());
    }
    let tn = t.len();
    let p0 = copy_range(t.as_slice(), 0, si);
    let p1 = copy_range(t.as_slice(), si + 1, tn);
    let c = match parse_frag_num(p0.as_slice()) {
        None => {
            return None;
        },
        Some(c) => c,
    };
    let tot = match parse_frag_num(p1.as_slice()) {
        None => {
            return None;
        },
        Some(t) => t,
    };
    if tot == 0 {
        return None;
    }
    proof {
        lemma_digits_val_bound(p0@);
        reveal_with_fuel(pow10, 8);
        lemma_pow10_le(p0@.len() as nat, 7);
    }
    Some(c * 1000 / tot)
}

/// Progress of a line, in tenths of a percent: the line must carry the
/// `[download]` marker; a percentage token among its words wins, else a
/// fragment count is tried.
pub open spec fn progress_of(s: Seq<u8>) -> Option<int> {
    if !contains_sub(s, download_marker()) {
        None
    } else if percent_scan(s, 0) is Some {
        percent_scan(s, 0)
    } else {
        frag_result(s)
    }
}

/// Parses the progress of one output line, in tenths of a percent.
pub fn parse_progress(line: &[u8]) -> (r: Option<u64>)
    ensures
        match r {
            Some(v) => progress_of(line@) == Some(v as int),
            None => progress_of(line@) is None,
        },
{
    let dm = download_marker_bytes();
    if !contains_pattern(line, dm.as_slice()) {
        return None;
    }
    match scan_percent(line) {
        Some(v) => Some(v),
        None => parse_frag(line),
    }
}

/// What one output line says: a progress value, a recognized marker, or
/// nothing.
#[derive(Clone, Copy, PartialEq, Eq, Structural, Debug)]
pub enum LineClass {
    /// A progress value in tenths of a percent.
    Progress(u64),
    /// The audio-extraction stage has begun.
    ExtractAudio,
    /// The source-site tag: video information is being fetched.
    Fetching,
    /// A streaming-preparation or informational line.
    Preparing,
    /// Intermediate files are being cleaned up.
    Finishing,
    /// No recognized pattern.
    NoMatch,
}

/// Classification of one output line: progress is checked first and is
/// independent of the extraction latch; then the markers, in order of
/// precedence. Once extraction has latched, the fetching and preparing
/// markers no longer classify, and such a line may still classify by a
/// later marker.
pub open spec fn classify_of(s: Seq<u8>, in_extract: bool) -> LineClass {
    match progress_of(s) {
        Some(v) => LineClass::Progress(v as u64),
        None => if contains_sub(s, extract_marker()) {
            LineClass::ExtractAudio
        } else if !in_extract && contains_sub(s, source_marker()) {
            LineClass::Fetching
        } else if !in_extract && (contains_sub(s, stream_marker()) || contains_sub(
            s,
            info_marker(),
        )) {
            LineClass::Preparing
        } else if contains_sub(s, cleanup_marker()) {
            LineClass::Finishing
        } else {
            LineClass::NoMatch
        },
    }
}

/// Classifies one output line, under the given extraction latch.
pub fn classify(line: &[u8], in_extract: bool) -> (r: LineClass)
    ensures
        r == classify_of(line@, in_extract),
{
    match parse_progress(line) {
        Some(v) => LineClass::Progress(v),
        None => {
            let em = extract_marker_bytes();
            if contains_pattern(line, em.as_slice()) {
                return LineClass::ExtractAudio;
            }
            if !in_extract {
                let sm = source_marker_bytes();
                if contains_pattern(line, sm.as_slice()) {
                    return LineClass::Fetching;
                }
                let hm = stream_marker_bytes();
                let im = info_marker_bytes();
                if contains_pattern(line, hm.as_slice()) || contains_pattern(
                    line,
                    im.as_slice(),
                ) {
                    return LineClass::Preparing;
                }
            }
            let cm = cleanup_marker_bytes();
            if contains_pattern(line, cm.as_slice()) {
                return LineClass::Finishing;
            }
            LineClass::NoMatch
        },
    }
}

/// Every byte of `s` is whitespace (true of the empty sequence).
pub open spec fn all_ws(s: Seq<u8>) -> bool {
    forall|k: int| 0 <= k < s.len() ==> is_ws(s[k])
}

/// Decides whether a line is blank: empty or all whitespace.
pub fn is_blank(s: &[u8]) -> (r: bool)
    ensures
        r == all_ws(s@),
{
    let n = s.len();
    let mut i: usize = 0;
    while i < n
        invariant
            n == s@.len(),
            0 <= i <= n,
            forall|k: int| 0 <= k < i ==> is_ws(s@[k]),
        decreases n - i,
    {
        if !is_ws_byte(s[i]) {
            return false;
        }
        i = i + 1;
    }
    true
}

/// A line without the download-context marker never yields progress,
/// whatever other tokens it holds and whatever the extraction latch.
pub proof fn lemma_no_marker_no_progress(s: Seq<u8>, in_extract: bool)
    requires
        !contains_sub(s, download_marker()),
    ensures
        progress_of(s) is None,
        !(classify_of(s, in_extract) is Progress),
{
}

/// A line that carries the download-context marker and whose first
/// percentage token is the word `s[i..j]` yields exactly that token's value
/// as progress, whatever the extraction latch.
pub proof fn lemma_percent_token_progress(s: Seq<u8>, i: int, j: int, in_extract: bool)
    requires
        contains_sub(s, download_marker()),
        word_at(s, i, j),
        pct_word_wf(s.subrange(i, j)),
        forall|i2: int, j2: int|
            word_at(s, i2, j2) && pct_word_wf(s.subrange(i2, j2)) ==> i <= i2,
    ensures
        progress_of(s) == Some(pct_word_val(s.subrange(i, j))),
        classify_of(s, in_extract) == LineClass::Progress(pct_word_val(s.subrange(i, j)) as u64),
{
    lemma_scan_finds(s, 0, i, j);
}

/// Scanning from `k`, with `k` at a word boundary and no percentage token
/// starting before `i`, finds the token at `[i, j)`.
proof fn lemma_scan_finds(s: Seq<u8>, k: int, i: int, j: int)
    requires
        0 <= k <= i,
        k == 0 || is_ws(s[k - 1]) || is_ws(s[k]),
        word_at(s, i, j),
        pct_word_wf(s.subrange(i, j)),
        forall|i2: int, j2: int|
            word_at(s, i2, j2) && pct_word_wf(s.subrange(i2, j2)) ==> i <= i2,
    ensures
        percent_scan(s, k) == Some(pct_word_val(s.subrange(i, j))),
    decreases i - k + 1,
{
    if is_ws(s[k]) {
        assert(k < i);
        lemma_scan_finds(s, k + 1, i, j);
    } else {
        lemma_word_end(s, k);
        let j2 = word_end(s, k);
        assert(word_at(s, k, j2));
        if k == i {
            lemma_word_end_of_word(s, i, j);
        } else {
            assert(k < i);
            assert(is_ws(s[i - 1]));
            assert(j2 <= i) by {
                if j2 > i {
                    assert(k <= i - 1 < j2);
                    assert(!is_ws(s[i - 1]));
                }
            }
            assert(!pct_word_wf(s.subrange(k, j2)));
            lemma_scan_finds(s, j2, i, j);
        }
    }
}

/// Counting a byte distributes over concatenation.
pub proof fn lemma_count_concat(a: Seq<u8>, b: Seq<u8>, c: u8)
    ensures
        count_byte(a + b, c) == count_byte(a, c) + count_byte(b, c),
    decreases b.len(),
{
    if b.len() == 0 {
        assert(a + b =~= a);
    } else {
        lemma_count_concat(a, b.drop_last(), c);
        assert((a + b).drop_last() =~= a + b.drop_last());
    }
}

/// A sequence without the byte `c` counts zero of it.
pub proof fn lemma_count_none(s: Seq<u8>, c: u8)
    requires
        forall|k: int| 0 <= k < s.len() ==> s[k] != c,
    ensures
        count_byte(s, c) == 0,
    decreases s.len(),
{
    if s.len() > 0 {
        lemma_count_none(s.drop_last(), c);
    }
}

/// `find_byte` from `i` lands on `m` when `c` first occurs there.
pub proof fn lemma_find_byte_at(s: Seq<u8>, c: u8, i: int, m: int)
    requires
        0 <= i <= m < s.len(),
        s[m] == c,
        forall|k: int| i <= k < m ==> s[k] != c,
    ensures
        find_byte(s, c, i) == Some(m),
    decreases m - i,
{
    if i < m {
        lemma_find_byte_at(s, c, i + 1, m);
    }
}

/// A line that carries the download-context marker, no percentage token,
/// and — as the word after its first `frag`, trimmed of parentheses —
/// exactly the fragment count `cs/ts`, yields current over total as a
/// percentage in tenths, wherever in the line the token stands.
pub proof fn lemma_frag_token_progress(s: Seq<u8>, fi: int, cs: Seq<u8>, ts: Seq<u8>, in_extract: bool)
    requires
        contains_sub(s, download_marker()),
        percent_scan(s, 0) is None,
        find_from(s, frag_marker(), 0) == Some(fi),
        frag_token_of(s, fi) == cs + seq![47u8] + ts,
        frag_num_wf(cs),
        frag_num_wf(ts),
        digits_val(ts) > 0,
    ensures
        progress_of(s) == Some(digits_val(cs) * 1000 / digits_val(ts)),
        classify_of(s, in_extract) == LineClass::Progress(
            (digits_val(cs) * 1000 / digits_val(ts)) as u64,
        ),
{
    let u = cs + seq![47u8] + ts;
    let m = cs.len() as int;
    assert(u.len() == cs.len() + 1 + ts.len());
    assert(forall|k: int| 0 <= k < m ==> u[k] == cs[k]);
    assert(u[m] == 47);
    assert(forall|k: int| m < k < u.len() ==> u[k] == ts[k - m - 1]);
    assert(count_byte(u, 47) == 1) by {
        lemma_count_concat(cs + seq![47u8], ts, 47);
        lemma_count_none(ts, 47);
        lemma_count_none(cs, 47);
        assert((cs + seq![47u8]).drop_last() =~= cs);
        assert(count_byte(cs + seq![47u8], 47) == 1);
        assert(cs + seq![47u8] + ts =~= (cs + seq![47u8]) + ts);
    }
    assert(find_byte(u, 47, 0) == Some(m)) by {
        lemma_find_byte_at(u, 47, 0, m);
    }
    assert(u.subrange(0, m) =~= cs);
    assert(u.subrange(m + 1, u.len() as int) =~= ts);
    assert(frag_result(s) == Some(digits_val(cs) * 1000 / digits_val(ts)));
}

/// A `Some` result of `find_byte` is a position of `c` within bounds.
pub proof fn lemma_find_byte_in_range(s: Seq<u8>, c: u8, i: int)
    requires
        0 <= i,
    ensures
        match find_byte(s, c, i) {
            Some(j) => i <= j < s.len() && s[j] == c,
            None => true,
        },
    decreases s.len() - i,
{
    if i < s.len() && s[i] != c {
        lemma_find_byte_in_range(s, c, i + 1);
    }
}

} // verus!
