//! The text edits the benchmark driver makes before it runs a benchmark: the
//! default `k` of a benchmark's circuit tuple is replaced, and in the
//! benchmark manifest only the `[[bench]]` block of the chosen benchmark is
//! left uncommented.
use vstd::prelude::*;
use vstd::string::StringSliceAdditionalSpecFns;

verus! {

/// The length of the UTF-8 encoding of a white-space character (Unicode
/// `White_Space`) at byte `i`, or zero where none starts there.
pub open spec fn ws_len(b: Seq<u8>, i: int) -> int {
    let n = b.len() - i;
    if n >= 1 && ((0x09 <= b[i] <= 0x0D) || b[i] == 0x20) {
        1
    } else if n >= 2 && b[i] == 0xC2 && (b[i + 1] == 0x85 || b[i + 1] == 0xA0) {
        2
    } else if n >= 3 && ((b[i] == 0xE1 && b[i + 1] == 0x9A && b[i + 2] == 0x80) || (b[i] == 0xE2 && b[i + 1]
        == 0x80 && ((0x80 <= b[i + 2] <= 0x8A) || b[i + 2] == 0xA8 || b[i + 2] == 0xA9 || b[i + 2] == 0xAF))
        || (b[i] == 0xE2 && b[i + 1] == 0x81 && b[i + 2] == 0x9F) || (b[i] == 0xE3 && b[i + 1] == 0x80 && b[i
        + 2] == 0x80)) {
        3
    } else {
        0
    }
}

/// The position after the white space that starts at byte `i`.
pub open spec fn skip_ws(b: Seq<u8>, i: int) -> int
    decreases b.len() - i,
{
    if 0 <= i < b.len() && ws_len(b, i) > 0 {
        skip_ws(b, i + ws_len(b, i))
    } else {
        i
    }
}

/// A decimal digit `0`-`9`.
pub open spec fn is_digit(c: u8) -> bool {
    0x30 <= c <= 0x39
}

/// A letter, a decimal digit or `_`.
pub open spec fn is_ident(c: u8) -> bool {
    is_digit(c) || (0x41 <= c <= 0x5A) || (0x61 <= c <= 0x7A) || c == 0x5F
}

/// The position after the digits that start at byte `i`.
pub open spec fn digits_end(b: Seq<u8>, i: int) -> int
    decreases b.len() - i,
{
    if 0 <= i < b.len() && is_digit(b[i]) {
        digits_end(b, i + 1)
    } else {
        i
    }
}

/// The position after the name characters that start at byte `i`.
pub open spec fn ident_end(b: Seq<u8>, i: int) -> int
    decreases b.len() - i,
{
    if 0 <= i < b.len() && is_ident(b[i]) {
        ident_end(b, i + 1)
    } else {
        i
    }
}

/// The bytes at `i` are `lit`.
pub open spec fn lit_at(b: Seq<u8>, i: int, lit: Seq<u8>) -> bool {
    0 <= i && i + lit.len() <= b.len() && b.subrange(i, i + lit.len()) == lit
}

/// `(Vec::new(),`.
pub open spec fn tuple_open() -> Seq<u8> {
    seq![0x28u8, 0x56, 0x65, 0x63, 0x3A, 0x3A, 0x6E, 0x65, 0x77, 0x28, 0x29, 0x2C]
}

/// `Circuit::`.
pub open spec fn circuit_path() -> Seq<u8> {
    seq![0x43u8, 0x69, 0x72, 0x63, 0x75, 0x69, 0x74, 0x3A, 0x3A]
}

/// The span of `<k>` in a circuit tuple `(Vec::new(), Circuit::<name>, <k>)`
/// that starts at byte `s`, with white space allowed after each comma and
/// after the name, `<name>` made of letters, digits and `_`, and `<k>` a
/// number or a range `a..b` written with the ASCII digits `0`-`9` (other
/// Unicode decimal digits are not read as digits); a range is taken where
/// both readings fit.
pub open spec fn tuple_k_at(b: Seq<u8>, s: int) -> Option<(int, int)> {
    let p2 = skip_ws(b, s + 12);
    let p3 = p2 + 9;
    let p4 = ident_end(b, p3);
    let p5 = skip_ws(b, p4);
    let p6 = skip_ws(b, p5 + 1);
    let d1 = digits_end(b, p6);
    let d2 = digits_end(b, d1 + 2);
    if !lit_at(b, s, tuple_open()) || !lit_at(b, p2, circuit_path()) || p4 == p3 || !lit_at(b, p5, seq![0x2Cu8])
        || d1 == p6 {
        None
    } else if lit_at(b, d1, seq![0x2Eu8, 0x2E]) && d2 > d1 + 2 && lit_at(b, d2, seq![0x29u8]) {
        Some((p6, d2))
    } else if lit_at(b, d1, seq![0x29u8]) {
        Some((p6, d1))
    } else {
        None
    }
}

/// The span of `<k>` in the first circuit tuple at or after byte `s`.
pub open spec fn k_span_from(b: Seq<u8>, s: int) -> Option<(int, int)>
    decreases b.len() - s,
{
    if s < 0 || s >= b.len() {
        None
    } else if tuple_k_at(b, s) is Some {
        tuple_k_at(b, s)
    } else {
        k_span_from(b, s + 1)
    }
}

/// The span of `<k>` in the first circuit tuple of a source text.
pub open spec fn k_span(b: Seq<u8>) -> Option<(int, int)> {
    k_span_from(b, 0)
}

/// The length of a white-space character's encoding at byte `i`.
fn ws_len_at(b: &[u8], i: usize) -> (r: usize)
    requires
        i <= b@.len(),
    ensures
        r == ws_len(b@, i as int),
{
    let n = b.len() - i;
    if n >= 1 && ((0x09 <= b[i] && b[i] <= 0x0D) || b[i] == 0x20) {
        1
    } else if n >= 2 && b[i] == 0xC2 && (b[i + 1] == 0x85 || b[i + 1] == 0xA0) {
        2
    } else if n >= 3 && ((b[i] == 0xE1 && b[i + 1] == 0x9A && b[i + 2] == 0x80) || (b[i] == 0xE2 && b[i + 1]
        == 0x80 && ((0x80 <= b[i + 2] && b[i + 2] <= 0x8A) || b[i + 2] == 0xA8 || b[i + 2] == 0xA9 || b[i + 2]
        == 0xAF)) || (b[i] == 0xE2 && b[i + 1] == 0x81 && b[i + 2] == 0x9F) || (b[i] == 0xE3 && b[i + 1]
        == 0x80 && b[i + 2] == 0x80)) {
        3
    } else {
        0
    }
}

/// The position after the white space at byte `i`.
fn skip_white(b: &[u8], i: usize) -> (r: usize)
    requires
        i <= b@.len(),
    ensures
        r == skip_ws(b@, i as int),
        i <= r <= b@.len(),
{
    let mut j = i;
    while j < b.len()
        invariant
            i <= j <= b@.len(),
            skip_ws(b@, j as int) == skip_ws(b@, i as int),
        decreases b@.len() - j,
    {
        let w = ws_len_at(b, j);
        if w == 0 {
            return j;
        }
        j = j + w;
    }
    j
}

/// The position after the digits at byte `i`.
fn skip_digits(b: &[u8], i: usize) -> (r: usize)
    requires
        i <= b@.len(),
    ensures
        r == digits_end(b@, i as int),
        i <= r <= b@.len(),
{
    let mut j = i;
    while j < b.len() && 0x30 <= b[j] && b[j] <= 0x39
        invariant
            i <= j <= b@.len(),
            digits_end(b@, j as int) == digits_end(b@, i as int),
        decreases b@.len() - j,
    {
        j = j + 1;
    }
    j
}

/// The position after the name characters at byte `i`.
fn skip_ident(b: &[u8], i: usize) -> (r: usize)
    requires
        i <= b@.len(),
    ensures
        r == ident_end(b@, i as int),
        i <= r <= b@.len(),
{
    let mut j = i;
    while j < b.len() && (b[j] == 0x5F || (0x30 <= b[j] && b[j] <= 0x39) || (0x41 <= b[j] && b[j] <= 0x5A) || (0x61
        <= b[j] && b[j] <= 0x7A))
        invariant
            i <= j <= b@.len(),
            ident_end(b@, j as int) == ident_end(b@, i as int),
        decreases b@.len() - j,
    {
        j = j + 1;
    }
    j
}

/// Whether the bytes at `i` are `lit`.
fn bytes_at(b: &[u8], i: usize, lit: &Vec<u8>) -> (r: bool)
    ensures
        r == lit_at(b@, i as int, lit@),
{
    let n = b.len();
    if i > n || lit.len() > n - i {
        return false;
    }
    let mut t: usize = 0;
    while t < lit.len()
        invariant
            n == b@.len(),
            i + lit@.len() <= n,
            t <= lit@.len(),
            forall|u: int| 0 <= u < t ==> b@[i + u] == #[trigger] lit@[u],
        decreases lit@.len() - t,
    {
        if b[i + t] != lit[t] {
            assert(b@.subrange(i as int, i + lit@.len())[t as int] != lit@[t as int]);
            return false;
        }
        t = t + 1;
    }
    assert(b@.subrange(i as int, i + lit@.len()) =~= lit@);
    true
}

/// The span of `<k>` in a circuit tuple that starts at byte `s`.
fn tuple_k(b: &[u8], s: usize) -> (r: Option<(usize, usize)>)
    requires
        s < b@.len(),
    ensures
        match r {
            Some((x, y)) => tuple_k_at(b@, s as int) == Some((x as int, y as int)) && x <= y < b@.len(),
            None => tuple_k_at(b@, s as int) is None,
        },
{
    let n = b.len();
    let open = vec![0x28u8, 0x56, 0x65, 0x63, 0x3A, 0x3A, 0x6E, 0x65, 0x77, 0x28, 0x29, 0x2C];
    assert(open@ == tuple_open());
    if !bytes_at(b, s, &open) {
        return None;
    }
    let p2 = skip_white(b, s + 12);
    let path = vec![0x43u8, 0x69, 0x72, 0x63, 0x75, 0x69, 0x74, 0x3A, 0x3A];
    assert(path@ == circuit_path());
    if !bytes_at(b, p2, &path) {
        return None;
    }
    let p3 = p2 + 9;
    let p4 = skip_ident(b, p3);
    let p5 = skip_white(b, p4);
    let comma = vec![0x2Cu8];
    assert(comma@ == seq![0x2Cu8]);
    if p4 == p3 || !bytes_at(b, p5, &comma) {
        return None;
    }
    let p6 = skip_white(b, p5 + 1);
    let d1 = skip_digits(b, p6);
    if d1 == p6 {
        return None;
    }
    let dots = vec![0x2Eu8, 0x2E];
    assert(dots@ == seq![0x2Eu8, 0x2E]);
    let close = vec![0x29u8];
    assert(close@ == seq![0x29u8]);
    if bytes_at(b, d1, &dots) {
        let d2 = skip_digits(b, d1 + 2);
        if d2 > d1 + 2 && bytes_at(b, d2, &close) {
            return Some((p6, d2));
        }
    } else {
        proof {
            if d1 + 2 <= b@.len() {
                assert(!lit_at(b@, d1 as int, seq![0x2Eu8, 0x2E]));
            }
        }
    }
    if bytes_at(b, d1, &close) {
        Some((p6, d1))
    } else {
        None
    }
}

/// The span of `<k>` in the first circuit tuple of a source text, as byte
/// positions.
pub fn find_k_span(text: &str) -> (r: Option<(usize, usize)>)
    ensures
        match r {
            Some((x, y)) => k_span(text.spec_bytes()) == Some((x as int, y as int)) && x <= y <= text.spec_bytes().len(),
            None => k_span(text.spec_bytes()) is None,
        },
{
    let b = text.as_bytes();
    let mut s: usize = 0;
    while s < b.len()
        invariant
            b@ == text.spec_bytes(),
            s <= b@.len(),
            k_span_from(b@, s as int) == k_span_from(b@, 0),
        decreases b@.len() - s,
    {
        match tuple_k(b, s) {
            Some(x) => {
                assert(k_span_from(b@, s as int) == tuple_k_at(b@, s as int));
                return Some(x);
            },
            None => {},
        }
        s = s + 1;
    }
    None
}

/// The bytes of `text` with the span `[s, e)` replaced by `new`.
pub open spec fn splice(text: Seq<u8>, s: int, e: int, new: Seq<u8>) -> Seq<u8> {
    text.subrange(0, s) + new + text.subrange(e, text.len() as int)
}

/// The source text with the default `k` of its first circuit tuple replaced
/// by `new_k`; the text unchanged where it has no such tuple.
pub open spec fn patched_k(text: &str, new_k: &str) -> Seq<u8> {
    match k_span(text.spec_bytes()) {
        Some((s, e)) => splice(text.spec_bytes(), s, e, new_k.spec_bytes()),
        None => text.spec_bytes(),
    }
}

/// Appends `src[from..to]` to `out`.
fn push_range(out: &mut Vec<u8>, src: &[u8], from: usize, to: usize)
    requires
        from <= to <= src@.len(),
    ensures
        final(out)@ == old(out)@ + src@.subrange(from as int, to as int),
{
    let ghost start = out@;
    let mut i = from;
    while i < to
        invariant
            from <= i <= to,
            to <= src@.len(),
            out@ == start + src@.subrange(from as int, i as int),
        decreases to - i,
    {
        out.push(src[i]);
        assert(out@ =~= start + src@.subrange(from as int, i + 1));
        i = i + 1;
    }
}

/// Replaces the default `k` of the first circuit tuple of a benchmark's
/// source by `new_k`, as bytes of the new source.
pub fn patch_k(text: &str, new_k: &str) -> (r: Vec<u8>)
    ensures
        r@ == patched_k(text, new_k),
{
    let bytes = text.as_bytes();
    let mut out: Vec<u8> = Vec::new();
    match find_k_span(text) {
        Some((s, e)) => {
            push_range(&mut out, bytes, 0, s);
            let nb = new_k.as_bytes();
            push_range(&mut out, nb, 0, nb.len());
            push_range(&mut out, bytes, e, bytes.len());
            assert(nb@.subrange(0, nb@.len() as int) =~= nb@);
        },
        None => {
            push_range(&mut out, bytes, 0, bytes.len());
            assert(bytes@.subrange(0, bytes@.len() as int) =~= bytes@);
        },
    }
    out
}

/// The character has the Unicode `White_Space` property.
pub open spec fn white_space(c: char) -> bool {
    let u = c as u32;
    (0x09 <= u <= 0x0D) || u == 0x20 || u == 0x85 || u == 0xA0 || u == 0x1680 || (0x2000 <= u <= 0x200A) || u
        == 0x2028 || u == 0x2029 || u == 0x202F || u == 0x205F || u == 0x3000
}

/// Whether a character has the Unicode `White_Space` property.
fn is_whitespace(c: char) -> (r: bool)
    ensures
        r == white_space(c),
{
    let u = c as u32;
    (0x09 <= u && u <= 0x0D) || u == 0x20 || u == 0x85 || u == 0xA0 || u == 0x1680 || (0x2000 <= u && u <= 0x200A)
        || u == 0x2028 || u == 0x2029 || u == 0x202F || u == 0x205F || u == 0x3000
}

/// The text without its leading white space, as `str::trim_start` gives it.
pub open spec fn trim_start(s: Seq<char>) -> Seq<char>
    decreases s.len(),
{
    if s.len() > 0 && white_space(s[0]) {
        trim_start(s.drop_first())
    } else {
        s
    }
}

/// The text without its leading `#` characters.
pub open spec fn trim_hashes(s: Seq<char>) -> Seq<char>
    decreases s.len(),
{
    if s.len() > 0 && s[0] == '#' {
        trim_hashes(s.drop_first())
    } else {
        s
    }
}

/// The text begins with `p`.
pub open spec fn starts_with(s: Seq<char>, p: Seq<char>) -> bool {
    p.len() <= s.len() && s.subrange(0, p.len() as int) == p
}

/// The text holds `p` somewhere.
pub open spec fn contains(s: Seq<char>, p: Seq<char>) -> bool {
    exists|i: int| 0 <= i && i + p.len() <= s.len() && #[trigger] s.subrange(i, i + p.len()) == p
}

/// `[[bench]]`.
pub open spec fn bench_header() -> Seq<char> {
    seq!['[', '[', 'b', 'e', 'n', 'c', 'h', ']', ']']
}

/// `# [[bench]]`.
pub open spec fn commented_header() -> Seq<char> {
    seq!['#', ' '] + bench_header()
}

/// `name =`.
pub open spec fn name_key() -> Seq<char> {
    seq!['n', 'a', 'm', 'e', ' ', '=']
}

/// The line opens a benchmark block, commented out or not.
pub open spec fn is_header(l: Seq<char>) -> bool {
    starts_with(trim_start(l), bench_header()) || starts_with(trim_start(l), commented_header())
}

/// The line names the benchmark `bench`.
pub open spec fn names_bench(l: Seq<char>, bench: Seq<char>) -> bool {
    contains(l, name_key()) && contains(l, bench)
}

/// A line of a block, uncommented where the block is the active one and
/// commented out where it is not.
pub open spec fn toggled_line(l: Seq<char>, active: bool) -> Seq<char> {
    let com = starts_with(trim_start(l), seq!['#']);
    if active && com {
        trim_start(trim_hashes(l))
    } else if !active && !com {
        seq!['#', ' '] + l
    } else {
        l
    }
}

/// The line without a last `\r`.
pub open spec fn strip_cr(s: Seq<char>) -> Seq<char> {
    if s.len() > 0 && s.last() == '\r' {
        s.drop_last()
    } else {
        s
    }
}

/// The lines from position `start` on, scanning from `i`: split at each
/// `\n`, with a `\r` just before it removed, and a last line without `\n`
/// kept as it is.
pub open spec fn lines_from(t: Seq<char>, start: int, i: int) -> Seq<Seq<char>>
    decreases t.len() - i,
{
    if i >= t.len() {
        if start < t.len() {
            seq![t.subrange(start, t.len() as int)]
        } else {
            Seq::empty()
        }
    } else if t[i] == '\n' {
        seq![strip_cr(t.subrange(start, i))] + lines_from(t, i + 1, i + 1)
    } else {
        lines_from(t, start, i + 1)
    }
}

/// The lines of a text, as `str::lines` gives them.
pub open spec fn text_lines(t: Seq<char>) -> Seq<Seq<char>> {
    lines_from(t, 0, 0)
}

/// The lines, each followed by `\n`.
pub open spec fn join_lines(ls: Seq<Seq<char>>) -> Seq<char>
    decreases ls.len(),
{
    if ls.len() == 0 {
        Seq::empty()
    } else {
        join_lines(ls.drop_last()) + ls.last() + seq!['\n']
    }
}

/// The header that line `i` falls under: the last header at or before it,
/// or `-1` where there is none.
pub open spec fn block_of(ls: Seq<Seq<char>>, i: int) -> int
    decreases i + 1,
{
    if i < 0 {
        -1
    } else if is_header(ls[i]) {
        i
    } else {
        block_of(ls, i - 1)
    }
}

/// The block under the header at `j` names the benchmark `bench`.
pub open spec fn block_active(ls: Seq<Seq<char>>, j: int, bench: Seq<char>) -> bool {
    exists|k: int| 0 <= k < ls.len() && block_of(ls, k) == j && #[trigger] names_bench(ls[k], bench)
}

/// The lines with every benchmark block toggled: the blocks that name
/// `bench` uncommented, the others commented out, and the lines before the
/// first block unchanged.
pub open spec fn toggled_lines(ls: Seq<Seq<char>>, bench: Seq<char>) -> Seq<Seq<char>> {
    Seq::new(
        ls.len(),
        |i: int|
            if block_of(ls, i) < 0 {
                ls[i]
            } else {
                toggled_line(ls[i], block_active(ls, block_of(ls, i), bench))
            },
    )
}

/// The manifest text with only the blocks of `bench` active.
pub open spec fn toggled_text(t: Seq<char>, bench: Seq<char>) -> Seq<char> {
    join_lines(toggled_lines(text_lines(t), bench))
}

/// Where the first `k` characters are white space and the next one, if any,
/// is not, the text without its leading white space starts at `k`.
proof fn lemma_trim_start_at(s: Seq<char>, k: int)
    requires
        0 <= k <= s.len(),
        forall|i: int| 0 <= i < k ==> white_space(#[trigger] s[i]),
        k == s.len() || !white_space(s[k]),
    ensures
        trim_start(s) == s.subrange(k, s.len() as int),
    decreases k,
{
    if k == 0 {
        assert(s.subrange(0, s.len() as int) =~= s);
    } else {
        assert forall|i: int| 0 <= i < k - 1 implies white_space(#[trigger] s.drop_first()[i]) by {
            assert(s.drop_first()[i] == s[i + 1]);
        }
        lemma_trim_start_at(s.drop_first(), k - 1);
        assert(s.drop_first().subrange(k - 1, s.len() - 1) =~= s.subrange(k, s.len() as int));
    }
}

/// Where the first `k` characters are `#` and the next one, if any, is
/// not, the text without its leading `#`s starts at `k`.
proof fn lemma_trim_hashes_at(s: Seq<char>, k: int)
    requires
        0 <= k <= s.len(),
        forall|i: int| 0 <= i < k ==> #[trigger] s[i] == '#',
        k == s.len() || s[k] != '#',
    ensures
        trim_hashes(s) == s.subrange(k, s.len() as int),
    decreases k,
{
    if k == 0 {
        assert(s.subrange(0, s.len() as int) =~= s);
    } else {
        assert forall|i: int| 0 <= i < k - 1 implies #[trigger] s.drop_first()[i] == '#' by {
            assert(s.drop_first()[i] == s[i + 1]);
        }
        lemma_trim_hashes_at(s.drop_first(), k - 1);
        assert(s.drop_first().subrange(k - 1, s.len() - 1) =~= s.subrange(k, s.len() as int));
    }
}

/// The position of the first character that is not white space.
fn leading_ws(s: &Vec<char>) -> (k: usize)
    ensures
        k <= s@.len(),
        trim_start(s@) == s@.subrange(k as int, s@.len() as int),
{
    let mut k: usize = 0;
    while k < s.len() && is_whitespace(s[k])
        invariant
            k <= s@.len(),
            forall|i: int| 0 <= i < k ==> white_space(#[trigger] s@[i]),
        decreases s@.len() - k,
    {
        k = k + 1;
    }
    proof {
        lemma_trim_start_at(s@, k as int);
    }
    k
}

/// `s[from..]` begins with `p`.
fn starts_with_at(s: &Vec<char>, from: usize, p: &Vec<char>) -> (r: bool)
    requires
        from <= s@.len(),
    ensures
        r == starts_with(s@.subrange(from as int, s@.len() as int), p@),
{
    let ghost t = s@.subrange(from as int, s@.len() as int);
    if p.len() > s.len() - from {
        return false;
    }
    let mut i: usize = 0;
    while i < p.len()
        invariant
            from + p.len() <= s.len(),
            t == s@.subrange(from as int, s@.len() as int),
            i <= p@.len(),
            forall|j: int| 0 <= j < i ==> #[trigger] t[j] == p@[j],
        decreases p@.len() - i,
    {
        if s[from + i] != p[i] {
            assert(t.subrange(0, p@.len() as int)[i as int] != p@[i as int]);
            return false;
        }
        i = i + 1;
    }
    assert(t.subrange(0, p@.len() as int) =~= p@);
    true
}

/// The text holds `p` somewhere.
fn contains_vec(s: &Vec<char>, p: &Vec<char>) -> (r: bool)
    ensures
        r == contains(s@, p@),
{
    if p.len() > s.len() {
        return false;
    }
    let last = s.len() - p.len();
    let mut i: usize = 0;
    loop
        invariant
            last == s@.len() - p@.len(),
            p@.len() <= s@.len(),
            i <= last,
            forall|j: int| 0 <= j < i ==> #[trigger] s@.subrange(j, j + p@.len()) != p@,
        ensures
            forall|j: int| 0 <= j <= last ==> #[trigger] s@.subrange(j, j + p@.len()) != p@,
        decreases last - i,
    {
        let found = starts_with_at(s, i, p);
        assert(s@.subrange(i as int, s@.len() as int).subrange(0, p@.len() as int) =~= s@.subrange(
            i as int,
            i + p@.len(),
        ));
        if found {
            return true;
        }
        if i == last {
            break;
        }
        i = i + 1;
    }
    assert forall|j: int| 0 <= j && j + p@.len() <= s@.len() implies #[trigger] s@.subrange(j, j + p@.len()) != p@ by {
        assert(j <= last);
    }
    false
}

/// The characters of each line.
pub open spec fn lines_view(v: Seq<Vec<char>>) -> Seq<Seq<char>> {
    v.map_values(|l: Vec<char>| l@)
}

/// `-1` for no header, the header's index otherwise.
pub open spec fn header_index(o: Option<usize>) -> int {
    match o {
        Some(j) => j as int,
        None => -1,
    }
}

/// `[[bench]]`.
fn bench_header_vec() -> (r: Vec<char>)
    ensures
        r@ == bench_header(),
{
    let r = vec!['[', '[', 'b', 'e', 'n', 'c', 'h', ']', ']'];
    assert(r@ =~= bench_header());
    r
}

/// `# [[bench]]`.
fn commented_header_vec() -> (r: Vec<char>)
    ensures
        r@ == commented_header(),
{
    let r = vec!['#', ' ', '[', '[', 'b', 'e', 'n', 'c', 'h', ']', ']'];
    assert(r@ =~= commented_header());
    r
}

/// `name =`.
fn name_key_vec() -> (r: Vec<char>)
    ensures
        r@ == name_key(),
{
    let r = vec!['n', 'a', 'm', 'e', ' ', '='];
    assert(r@ =~= name_key());
    r
}

/// `s[from..]`.
fn suffix_chars(s: &Vec<char>, from: usize) -> (r: Vec<char>)
    requires
        from <= s@.len(),
    ensures
        r@ == s@.subrange(from as int, s@.len() as int),
{
    let mut out: Vec<char> = Vec::new();
    let mut i = from;
    while i < s.len()
        invariant
            from <= i <= s@.len(),
            out@ == s@.subrange(from as int, i as int),
        decreases s@.len() - i,
    {
        out.push(s[i]);
        assert(out@ =~= s@.subrange(from as int, i + 1));
        i = i + 1;
    }
    out
}

/// Whether the line opens a benchmark block.
fn line_is_header(l: &Vec<char>) -> (r: bool)
    ensures
        r == is_header(l@),
{
    let k = leading_ws(l);
    starts_with_at(l, k, &bench_header_vec()) || starts_with_at(l, k, &commented_header_vec())
}

/// Whether the line names the benchmark `bench`.
fn line_names_bench(l: &Vec<char>, bench: &Vec<char>) -> (r: bool)
    ensures
        r == names_bench(l@, bench@),
{
    contains_vec(l, &name_key_vec()) && contains_vec(l, bench)
}

/// The line of a block, uncommented where the block is active and commented
/// out where it is not.
fn toggle_line(l: &Vec<char>, active: bool) -> (r: Vec<char>)
    ensures
        r@ == toggled_line(l@, active),
{
    let k = leading_ws(l);
    let com = k < l.len() && l[k] == '#';
    assert(com == starts_with(trim_start(l@), seq!['#'])) by {
        let t = trim_start(l@);
        if t.len() >= 1 {
            assert(t[0] == l@[k as int]);
            if t[0] == '#' {
                assert(t.subrange(0, 1) =~= seq!['#']);
            } else {
                assert(t.subrange(0, 1)[0] != seq!['#'][0]);
            }
        }
    }
    if active && com {
        let mut h: usize = 0;
        while h < l.len() && l[h] == '#'
            invariant
                h <= l@.len(),
                forall|i: int| 0 <= i < h ==> #[trigger] l@[i] == '#',
            decreases l@.len() - h,
        {
            h = h + 1;
        }
        proof {
            lemma_trim_hashes_at(l@, h as int);
        }
        let rest = suffix_chars(l, h);
        let k2 = leading_ws(&rest);
        suffix_chars(&rest, k2)
    } else if !active && !com {
        let mut out: Vec<char> = vec!['#', ' '];
        let mut i: usize = 0;
        while i < l.len()
            invariant
                i <= l@.len(),
                out@ == seq!['#', ' '] + l@.subrange(0, i as int),
            decreases l@.len() - i,
        {
            out.push(l[i]);
            assert(out@ =~= seq!['#', ' '] + l@.subrange(0, i + 1));
            i = i + 1;
        }
        assert(l@.subrange(0, l@.len() as int) =~= l@);
        out
    } else {
        suffix_chars(l, 0)
    }
}

/// The lines of a text, as `str::lines` splits it.
fn split_lines(t: &Vec<char>) -> (r: Vec<Vec<char>>)
    ensures
        lines_view(r@) == text_lines(t@),
{
    let mut out: Vec<Vec<char>> = Vec::new();
    let mut start: usize = 0;
    let mut i: usize = 0;
    while i < t.len()
        invariant
            start <= i <= t@.len(),
            lines_view(out@) + lines_from(t@, start as int, i as int) == text_lines(t@),
        decreases t@.len() - i,
    {
        if t[i] == '\n' {
            let mut line: Vec<char> = Vec::new();
            let mut j = start;
            while j < i
                invariant
                    start <= j <= i,
                    i < t@.len(),
                    line@ == t@.subrange(start as int, j as int),
                decreases i - j,
            {
                line.push(t[j]);
                assert(line@ =~= t@.subrange(start as int, j + 1));
                j = j + 1;
            }
            if line.len() > 0 && line[line.len() - 1] == '\r' {
                line.pop();
            }
            assert(line@ == strip_cr(t@.subrange(start as int, i as int)));
            let ghost before = lines_view(out@);
            out.push(line);
            assert(lines_view(out@) =~= before.push(strip_cr(t@.subrange(start as int, i as int))));
            assert(lines_view(out@) + lines_from(t@, i + 1, i + 1) =~= before + lines_from(t@, start as int, i as int));
            start = i + 1;
        }
        i = i + 1;
    }
    if start < t.len() {
        let last = suffix_chars(t, start);
        let ghost before = lines_view(out@);
        out.push(last);
        assert(lines_view(out@) =~= before + lines_from(t@, start as int, i as int));
    } else {
        assert(lines_view(out@) =~= lines_view(out@) + lines_from(t@, start as int, i as int));
    }
    out
}

/// The lines, each followed by `\n`.
fn join_lines_vec(ls: &Vec<Vec<char>>) -> (r: Vec<char>)
    ensures
        r@ == join_lines(lines_view(ls@)),
{
    let mut out: Vec<char> = Vec::new();
    let mut i: usize = 0;
    while i < ls.len()
        invariant
            i <= ls@.len(),
            out@ == join_lines(lines_view(ls@).subrange(0, i as int)),
        decreases ls@.len() - i,
    {
        let ghost before = out@;
        let mut j: usize = 0;
        while j < ls[i].len()
            invariant
                i < ls@.len(),
                j <= ls@[i as int]@.len(),
                out@ == before + ls@[i as int]@.subrange(0, j as int),
            decreases ls@[i as int]@.len() - j,
        {
            out.push(ls[i][j]);
            assert(out@ =~= before + ls@[i as int]@.subrange(0, j + 1));
            j = j + 1;
        }
        out.push('\n');
        assert(ls@[i as int]@.subrange(0, ls@[i as int]@.len() as int) =~= ls@[i as int]@);
        assert(lines_view(ls@).subrange(0, i + 1).drop_last() =~= lines_view(ls@).subrange(0, i as int));
        assert(out@ =~= join_lines(lines_view(ls@).subrange(0, i + 1)));
        i = i + 1;
    }
    assert(lines_view(ls@).subrange(0, ls@.len() as int) =~= lines_view(ls@));
    out
}

/// The manifest text with only the benchmark blocks that name `bench`
/// active: the lines of those blocks uncommented, the lines of the other
/// blocks commented out, and the lines before the first block unchanged.
pub fn toggle_bench_text(text: &Vec<char>, bench: &Vec<char>) -> (r: Vec<char>)
    ensures
        r@ == toggled_text(text@, bench@),
{
    let ls = split_lines(text);
    let ghost lv = lines_view(ls@);
    let n = ls.len();
    let mut starts: Vec<Option<usize>> = Vec::new();
    let mut cur: Option<usize> = None;
    let mut i: usize = 0;
    while i < n
        invariant
            n == ls@.len(),
            lv == lines_view(ls@),
            i <= n,
            starts@.len() == i,
            header_index(cur) == block_of(lv, i - 1),
            forall|k: int| 0 <= k < i ==> header_index(#[trigger] starts@[k]) == block_of(lv, k),
            forall|k: int| 0 <= k < i ==> (#[trigger] starts@[k] matches Some(j) ==> j < n),
            cur matches Some(j) ==> j < n,
        decreases n - i,
    {
        if line_is_header(&ls[i]) {
            cur = Some(i);
        }
        starts.push(cur);
        i = i + 1;
    }
    let mut active: Vec<bool> = Vec::new();
    let mut j: usize = 0;
    while j < n
        invariant
            j <= n,
            active@.len() == j,
            forall|a: int| 0 <= a < j ==> !#[trigger] active@[a],
        decreases n - j,
    {
        active.push(false);
        j = j + 1;
    }
    let mut k: usize = 0;
    while k < n
        invariant
            n == ls@.len(),
            lv == lines_view(ls@),
            starts@.len() == n,
            active@.len() == n,
            k <= n,
            forall|a: int| 0 <= a < n ==> header_index(#[trigger] starts@[a]) == block_of(lv, a),
            forall|a: int| 0 <= a < n ==> (#[trigger] starts@[a] matches Some(b) ==> b < n),
            forall|b: int|
                0 <= b < n ==> #[trigger] active@[b] == exists|a: int|
                    0 <= a < k && block_of(lv, a) == b && #[trigger] names_bench(lv[a], bench@),
        decreases n - k,
    {
        if let Some(b) = starts[k] {
            let named = line_names_bench(&ls[k], bench);
            assert(lv[k as int] == ls@[k as int]@);
            if named {
                let ghost before = active@;
                active.set(b, true);
                assert forall|c: int| 0 <= c < n implies #[trigger] active@[c] == exists|a: int|
                    0 <= a < k + 1 && block_of(lv, a) == c && #[trigger] names_bench(lv[a], bench@) by {
                    if c == b {
                        assert(block_of(lv, k as int) == c && names_bench(lv[k as int], bench@));
                    } else {
                        assert(active@[c] == before[c]);
                        if exists|a: int| 0 <= a < k + 1 && block_of(lv, a) == c && #[trigger] names_bench(lv[a], bench@) {
                            let a = choose|a: int| 0 <= a < k + 1 && block_of(lv, a) == c && #[trigger] names_bench(lv[a], bench@);
                            assert(a != k);
                        }
                    }
                }
            } else {
                assert forall|c: int| 0 <= c < n implies #[trigger] active@[c] == exists|a: int|
                    0 <= a < k + 1 && block_of(lv, a) == c && #[trigger] names_bench(lv[a], bench@) by {
                    if exists|a: int| 0 <= a < k + 1 && block_of(lv, a) == c && #[trigger] names_bench(lv[a], bench@) {
                        let a = choose|a: int| 0 <= a < k + 1 && block_of(lv, a) == c && #[trigger] names_bench(lv[a], bench@);
                        assert(a != k);
                    }
                }
            }
        } else {
            assert(block_of(lv, k as int) == -1);
            assert forall|c: int| 0 <= c < n implies #[trigger] active@[c] == exists|a: int|
                0 <= a < k + 1 && block_of(lv, a) == c && #[trigger] names_bench(lv[a], bench@) by {
                if exists|a: int| 0 <= a < k + 1 && block_of(lv, a) == c && #[trigger] names_bench(lv[a], bench@) {
                    let a = choose|a: int| 0 <= a < k + 1 && block_of(lv, a) == c && #[trigger] names_bench(lv[a], bench@);
                    assert(a != k);
                }
            }
        }
        k = k + 1;
    }
    let ghost want = toggled_lines(lv, bench@);
    let mut out: Vec<Vec<char>> = Vec::new();
    let mut t: usize = 0;
    while t < n
        invariant
            n == ls@.len(),
            lv == lines_view(ls@),
            want == toggled_lines(lv, bench@),
            starts@.len() == n,
            active@.len() == n,
            t <= n,
            forall|a: int| 0 <= a < n ==> header_index(#[trigger] starts@[a]) == block_of(lv, a),
            forall|a: int| 0 <= a < n ==> (#[trigger] starts@[a] matches Some(b) ==> b < n),
            forall|b: int| 0 <= b < n ==> #[trigger] active@[b] == block_active(lv, b, bench@),
            lines_view(out@) == want.subrange(0, t as int),
        decreases n - t,
    {
        assert(lv[t as int] == ls@[t as int]@);
        let line = match starts[t] {
            None => suffix_chars(&ls[t], 0),
            Some(b) => toggle_line(&ls[t], active[b]),
        };
        assert(ls@[t as int]@.subrange(0, ls@[t as int]@.len() as int) =~= ls@[t as int]@);
        assert(line@ == want[t as int]);
        let ghost before = lines_view(out@);
        out.push(line);
        assert(lines_view(out@) =~= before.push(line@));
        assert(lines_view(out@) =~= want.subrange(0, t + 1));
        t = t + 1;
    }
    assert(lines_view(out@) =~= want);
    join_lines_vec(&out)
}

} // verus!
