//! Character-level helpers shared by the annotator and the exposition parser:
//! line splitting, whitespace, substring search, decimal rendering.
use vstd::prelude::*;

verus! {

/// The characters of a string slice, in order.
pub fn chars_of(s: &str) -> (v: Vec<char>)
    ensures
        v@ == s@,
{
    let mut v: Vec<char> = Vec::new();
    for c in it: s.chars()
        invariant
            v@ == it.seq().take(it.index() as int),
            it.seq() == s@,
    {
        v.push(c);
    }
    v
}

/// `String::push`: appends one character at the end of the string.
#[verifier::external_body]
fn string_push(s: &mut String, c: char)
    ensures
        final(s)@ == old(s)@.push(c),
{
    s.push(c);
}

/// A `String` holding exactly the given characters.
pub fn string_of(v: &Vec<char>) -> (s: String)
    ensures
        s@ == v@,
{
    let mut s = String::new();
    let mut i: usize = 0;
    while i < v.len()
        invariant
            i <= v.len(),
            s@ == v@.take(i as int),
        decreases v.len() - i,
    {
        string_push(&mut s, v[i]);
        i = i + 1;
        assert(s@ =~= v@.take(i as int));
    }
    assert(v@.take(v.len() as int) =~= v@);
    s
}

/// Appends the characters of `s` to `out`.
pub fn push_str(out: &mut Vec<char>, s: &str)
    ensures
        final(out)@ == old(out)@ + s@,
{
    let v = chars_of(s);
    push_chars(out, &v);
}

/// Appends the characters of `v` to `out`.
pub fn push_chars(out: &mut Vec<char>, v: &Vec<char>)
    ensures
        final(out)@ == old(out)@ + v@,
{
    let ghost start = out@;
    let mut i: usize = 0;
    while i < v.len()
        invariant
            i <= v.len(),
            out@ == start + v@.take(i as int),
        decreases v.len() - i,
    {
        out.push(v[i]);
        i = i + 1;
        assert(out@ =~= start + v@.take(i as int));
    }
    assert(v@.take(v.len() as int) =~= v@);
}

/// A copy of a character vector.
pub fn copy_chars(v: &Vec<char>) -> (r: Vec<char>)
    ensures
        r@ == v@,
{
    let mut r: Vec<char> = Vec::new();
    push_chars(&mut r, v);
    assert(r@ =~= v@);
    r
}

/// Whether two character vectors hold the same characters.
pub fn chars_eq(a: &Vec<char>, b: &Vec<char>) -> (r: bool)
    ensures
        r == (a@ == b@),
{
    if a.len() != b.len() {
        return false;
    }
    let mut i: usize = 0;
    while i < a.len()
        invariant
            i <= a.len(),
            a.len() == b.len(),
            a@.take(i as int) == b@.take(i as int),
        decreases a.len() - i,
    {
        if a[i] != b[i] {
            assert(a@[i as int] != b@[i as int]);
            return false;
        }
        assert(a@.take(i + 1) =~= a@.take(i as int).push(a@[i as int]));
        assert(b@.take(i + 1) =~= b@.take(i as int).push(b@[i as int]));
        i = i + 1;
    }
    assert(a@ =~= a@.take(a.len() as int));
    assert(b@ =~= b@.take(b.len() as int));
    true
}

/// Whether the characters of `a` equal those of the string `s`.
pub fn chars_eq_str(a: &Vec<char>, s: &str) -> (r: bool)
    ensures
        r == (a@ == s@),
{
    let v = chars_of(s);
    chars_eq(a, &v)
}

/// The texts held by a sequence of character vectors.
pub open spec fn texts(v: Seq<Vec<char>>) -> Seq<Seq<char>> {
    v.map_values(|t: Vec<char>| t@)
}

/// Unicode `White_Space`, as `char::is_whitespace` decides it.
pub open spec fn is_whitespace(c: char) -> bool {
    let u = c as u32;
    ||| 9 <= u <= 13
    ||| u == 32
    ||| u == 0x85
    ||| u == 0xA0
    ||| u == 0x1680
    ||| 0x2000 <= u <= 0x200A
    ||| u == 0x2028
    ||| u == 0x2029
    ||| u == 0x202F
    ||| u == 0x205F
    ||| u == 0x3000
}

pub fn whitespace(c: char) -> (r: bool)
    ensures
        r == is_whitespace(c),
{
    let u = c as u32;
    (9 <= u && u <= 13) || u == 32 || u == 0x85 || u == 0xA0 || u == 0x1680 || (0x2000 <= u && u
        <= 0x200A) || u == 0x2028 || u == 0x2029 || u == 0x202F || u == 0x205F || u == 0x3000
}

/// A line is blank when trimming its whitespace leaves nothing.
pub open spec fn is_blank(line: Seq<char>) -> bool {
    forall|i: int| 0 <= i < line.len() ==> is_whitespace(#[trigger] line[i])
}

pub fn blank(line: &Vec<char>) -> (r: bool)
    ensures
        r == is_blank(line@),
{
    let mut i: usize = 0;
    while i < line.len()
        invariant
            i <= line.len(),
            forall|j: int| 0 <= j < i ==> is_whitespace(#[trigger] line@[j]),
        decreases line.len() - i,
    {
        if !whitespace(line[i]) {
            return false;
        }
        i = i + 1;
    }
    true
}

/// A line without one trailing carriage return.
pub open spec fn strip_cr(l: Seq<char>) -> Seq<char> {
    if l.len() > 0 && l.last() == '\r' {
        l.drop_last()
    } else {
        l
    }
}

/// Reading `s` from the left: the lines finished by a newline, and the
/// characters read since the last newline.
pub open spec fn line_scan(s: Seq<char>) -> (Seq<Seq<char>>, Seq<char>)
    decreases s.len(),
{
    if s.len() == 0 {
        (seq![], seq![])
    } else {
        let (done, cur) = line_scan(s.drop_last());
        if s.last() == '\n' {
            (done.push(strip_cr(cur)), seq![])
        } else {
            (done, cur.push(s.last()))
        }
    }
}

/// The lines of `s` as `str::lines` gives them: split at each `\n`, one
/// `\r` before the `\n` removed, no empty line after a final `\n`.
pub open spec fn lines(s: Seq<char>) -> Seq<Seq<char>> {
    let (done, cur) = line_scan(s);
    if cur.len() == 0 {
        done
    } else {
        done.push(cur)
    }
}

pub fn split_lines(s: &Vec<char>) -> (r: Vec<Vec<char>>)
    ensures
        texts(r@) == lines(s@),
{
    let mut done: Vec<Vec<char>> = Vec::new();
    let mut cur: Vec<char> = Vec::new();
    let mut i: usize = 0;
    while i < s.len()
        invariant
            i <= s.len(),
            (texts(done@), cur@) == line_scan(s@.take(i as int)),
        decreases s.len() - i,
    {
        let c = s[i];
        assert(s@.take(i + 1).drop_last() =~= s@.take(i as int));
        if c == '\n' {
            let mut line = cur;
            if line.len() > 0 && line[line.len() - 1] == '\r' {
                line.pop();
            }
            assert(line@ == strip_cr(cur@));
            let ghost before = texts(done@);
            done.push(line);
            assert(texts(done@) =~= before.push(strip_cr(cur@)));
            cur = Vec::new();
            assert(cur@ =~= Seq::<char>::empty());
        } else {
            cur.push(c);
        }
        i = i + 1;
    }
    assert(s@.take(s.len() as int) =~= s@);
    if cur.len() > 0 {
        let ghost before = texts(done@);
        let ghost last = cur@;
        done.push(cur);
        assert(texts(done@) =~= before.push(last));
    }
    done
}

/// Index of the first character at or after `i` that is a space or `{`
/// (or the length of `s` when there is none).
pub open spec fn token_end(s: Seq<char>, i: int) -> int
    decreases s.len() - i,
{
    if i < 0 || i >= s.len() || s[i] == ' ' || s[i] == '{' {
        i
    } else {
        token_end(s, i + 1)
    }
}

/// The first piece of `line.split(&[' ', '{'])`.
pub open spec fn first_token(line: Seq<char>) -> Seq<char> {
    line.take(token_end(line, 0))
}

pub fn first_token_of(line: &Vec<char>) -> (r: Vec<char>)
    ensures
        r@ == first_token(line@),
{
    let mut i: usize = 0;
    while i < line.len() && line[i] != ' ' && line[i] != '{'
        invariant
            i <= line.len(),
            token_end(line@, 0) == token_end(line@, i as int),
        decreases line.len() - i,
    {
        i = i + 1;
    }
    let mut r: Vec<char> = Vec::new();
    let mut j: usize = 0;
    while j < i
        invariant
            j <= i <= line.len(),
            r@ == line@.take(j as int),
        decreases i - j,
    {
        r.push(line[j]);
        j = j + 1;
        assert(r@ =~= line@.take(j as int));
    }
    r
}

/// Whether `p` occurs in `s` starting at index `i`.
pub open spec fn occurs_at(s: Seq<char>, p: Seq<char>, i: int) -> bool {
    0 <= i && i + p.len() <= s.len() && s.subrange(i, i + p.len()) == p
}

pub fn occurs_at_exec(s: &Vec<char>, p: &Vec<char>, i: usize) -> (r: bool)
    ensures
        r == occurs_at(s@, p@, i as int),
{
    if i > s.len() || p.len() > s.len() - i {
        return false;
    }
    let mut k: usize = 0;
    while k < p.len()
        invariant
            k <= p.len(),
            i + p.len() <= s.len(),
            s@.subrange(i as int, i + k) == p@.take(k as int),
        decreases p.len() - k,
    {
        if s[i + k] != p[k] {
            assert(s@.subrange(i as int, i + p.len())[k as int] != p@[k as int]);
            return false;
        }
        assert(s@.subrange(i as int, i + k + 1) =~= s@.subrange(i as int, i + k).push(s@[i + k]));
        assert(p@.take(k + 1) =~= p@.take(k as int).push(p@[k as int]));
        k = k + 1;
    }
    assert(p@.take(p.len() as int) =~= p@);
    true
}

/// The last piece of `s.split(p)` for a non-empty `p`, reading from `i` with
/// the current piece starting at `start`: matches are taken from the left
/// and do not overlap.
pub open spec fn last_piece(s: Seq<char>, p: Seq<char>, start: int, i: int) -> Seq<char>
    decreases s.len() - i,
{
    if p.len() == 0 || i < 0 || i + p.len() > s.len() {
        s.subrange(start, s.len() as int)
    } else if occurs_at(s, p, i) {
        last_piece(s, p, i + p.len(), i + p.len())
    } else {
        last_piece(s, p, start, i + 1)
    }
}

/// `s.split(p).last()`: what follows the last match of `p`, matches taken
/// from the left without overlap; empty when `p` is empty.
pub open spec fn split_last(s: Seq<char>, p: Seq<char>) -> Seq<char> {
    if p.len() == 0 {
        seq![]
    } else {
        last_piece(s, p, 0, 0)
    }
}

pub fn split_last_exec(s: &Vec<char>, p: &Vec<char>) -> (r: Vec<char>)
    ensures
        r@ == split_last(s@, p@),
{
    if p.len() == 0 {
        return Vec::new();
    }
    let mut start: usize = 0;
    let mut i: usize = 0;
    while i <= s.len() && p.len() <= s.len() - i
        invariant
            start <= i <= s.len(),
            p.len() > 0,
            split_last(s@, p@) == last_piece(s@, p@, start as int, i as int),
        decreases s.len() - i,
    {
        if occurs_at_exec(s, p, i) {
            i = i + p.len();
            start = i;
        } else {
            i = i + 1;
        }
    }
    let mut r: Vec<char> = Vec::new();
    let mut j: usize = start;
    while j < s.len()
        invariant
            start <= j <= s.len(),
            r@ == s@.subrange(start as int, j as int),
        decreases s.len() - j,
    {
        r.push(s[j]);
        j = j + 1;
        assert(r@ =~= s@.subrange(start as int, j as int));
    }
    r
}

/// The character of a decimal digit.
pub open spec fn digit_char(d: int) -> char {
    if d == 0 {
        '0'
    } else if d == 1 {
        '1'
    } else if d == 2 {
        '2'
    } else if d == 3 {
        '3'
    } else if d == 4 {
        '4'
    } else if d == 5 {
        '5'
    } else if d == 6 {
        '6'
    } else if d == 7 {
        '7'
    } else if d == 8 {
        '8'
    } else {
        '9'
    }
}

/// The decimal digits of `n`, as `format!("{}", n)` writes them.
pub open spec fn decimal(n: nat) -> Seq<char>
    decreases n,
{
    if n < 10 {
        seq![digit_char(n as int)]
    } else {
        decimal(n / 10).push(digit_char((n % 10) as int))
    }
}

fn digit_of(d: usize) -> (c: char)
    requires
        d < 10,
    ensures
        c == digit_char(d as int),
{
    if d == 0 {
        '0'
    } else if d == 1 {
        '1'
    } else if d == 2 {
        '2'
    } else if d == 3 {
        '3'
    } else if d == 4 {
        '4'
    } else if d == 5 {
        '5'
    } else if d == 6 {
        '6'
    } else if d == 7 {
        '7'
    } else if d == 8 {
        '8'
    } else {
        '9'
    }
}

/// Appends the decimal digits of `n`.
pub fn push_decimal(out: &mut Vec<char>, n: usize)
    ensures
        final(out)@ == old(out)@ + decimal(n as nat),
    decreases n,
{
    if n >= 10 {
        push_decimal(out, n / 10);
    }
    let ghost mid = out@;
    out.push(digit_of(n % 10));
    if n >= 10 {
        assert(out@ =~= old(out)@ + decimal(n as nat));
    } else {
        assert(out@ =~= old(out)@ + decimal(n as nat));
    }
}

/// Whether `s` ends with `suffix`.
pub open spec fn ends_with(s: Seq<char>, suffix: Seq<char>) -> bool {
    suffix.len() <= s.len() && s.subrange(s.len() - suffix.len(), s.len() as int) == suffix
}

pub fn ends_with_str(s: &Vec<char>, suffix: &str) -> (r: bool)
    ensures
        r == ends_with(s@, suffix@),
{
    let p = chars_of(suffix);
    if p.len() > s.len() {
        return false;
    }
    let r = occurs_at_exec(s, &p, s.len() - p.len());
    r
}

/// `s.trim_end_matches(suffix)`: `s` with every repetition of `suffix` at
/// its end removed; `s` itself when `suffix` is empty.
pub open spec fn trim_end(s: Seq<char>, suffix: Seq<char>) -> Seq<char>
    decreases s.len(),
{
    if suffix.len() > 0 && ends_with(s, suffix) {
        trim_end(s.subrange(0, s.len() - suffix.len()), suffix)
    } else {
        s
    }
}

pub fn trim_end_str(s: &Vec<char>, suffix: &str) -> (r: Vec<char>)
    ensures
        r@ == trim_end(s@, suffix@),
{
    let p = chars_of(suffix);
    let mut end: usize = s.len();
    assert(s@.subrange(0, end as int) =~= s@);
    while p.len() > 0 && p.len() <= end && occurs_at_exec(s, &p, end - p.len())
        invariant
            end <= s.len(),
            p@ == suffix@,
            trim_end(s@, suffix@) == trim_end(s@.subrange(0, end as int), suffix@),
        decreases end,
    {
        proof {
            let t = s@.subrange(0, end as int);
            assert(t.subrange(t.len() - p.len(), t.len() as int) =~= s@.subrange(end - p.len(), end as int));
            assert(t.subrange(0, t.len() - p.len()) =~= s@.subrange(0, end - p.len()));
        }
        end = end - p.len();
    }
    proof {
        let t = s@.subrange(0, end as int);
        if p.len() > 0 && p.len() <= end {
            assert(t.subrange(t.len() - p.len(), t.len() as int) =~= s@.subrange(end - p.len(), end as int));
        }
    }
    let mut r: Vec<char> = Vec::new();
    let mut j: usize = 0;
    while j < end
        invariant
            j <= end <= s.len(),
            r@ == s@.subrange(0, j as int),
        decreases end - j,
    {
        r.push(s[j]);
        j = j + 1;
        assert(r@ =~= s@.subrange(0, j as int));
    }
    r
}

/// A newline after a text that does not end with a carriage return ends
/// its last line, or adds an empty line after a text that ends with a
/// newline (or is empty).
pub proof fn lemma_lines_newline(s: Seq<char>)
    requires
        s.len() == 0 || s.last() != '\r',
    ensures
        line_scan(s).1.len() == 0 ==> lines(s.push('\n')) == lines(s).push(seq![]),
        line_scan(s).1.len() > 0 ==> lines(s.push('\n')) == lines(s),
{
    assert(s.push('\n').drop_last() =~= s);
    let (done, cur) = line_scan(s);
    if cur.len() > 0 {
        assert(s.len() > 0);
        assert(s.drop_last().push(s.last()) =~= s);
        assert(cur.last() == s.last());
        assert(strip_cr(cur) == cur);
    } else {
        assert(strip_cr(cur) =~= Seq::<char>::empty());
    }
}


/// Reading past a text that is empty or ends with a newline starts afresh:
/// the lines of `a + b` are those of `a` followed by those of `b`.
pub proof fn lemma_line_scan_append(a: Seq<char>, b: Seq<char>)
    requires
        a.len() == 0 || a.last() == '\n',
    ensures
        line_scan(a + b) == (line_scan(a).0 + line_scan(b).0, line_scan(b).1),
        lines(a + b) == lines(a) + lines(b),
    decreases b.len(),
{
    assert(line_scan(a).1.len() == 0) by {
        if a.len() > 0 {
            assert(a.drop_last().push(a.last()) =~= a);
        }
    }
    if b.len() == 0 {
        assert(a + b =~= a);
        assert(line_scan(a).0 + line_scan(b).0 =~= line_scan(a).0);
        assert(lines(a) + lines(b) =~= lines(a));
    } else {
        lemma_line_scan_append(a, b.drop_last());
        assert((a + b).drop_last() =~= a + b.drop_last());
        assert((a + b).last() == b.last());
        let (d0, _c0) = line_scan(a);
        let (d1, _c1) = line_scan(b.drop_last());
        assert((d0 + d1).push(strip_cr(line_scan(b.drop_last()).1)) =~= d0 + d1.push(strip_cr(line_scan(b.drop_last()).1)));
        let (d, c) = line_scan(b);
        assert((d0 + d).push(c) =~= d0 + d.push(c));
    }
}

/// A line ended by `\r\n` reads as the same line ended by `\n`, when the
/// text before the end does not itself end with a carriage return.
pub proof fn lemma_lines_crlf(a: Seq<char>)
    requires
        a.len() == 0 || a.last() != '\r',
    ensures
        lines(a + seq!['\r', '\n']) == lines(a + seq!['\n']),
{
    let crlf = a + seq!['\r', '\n'];
    let lf = a + seq!['\n'];
    assert(crlf.drop_last().drop_last() =~= a);
    assert(lf.drop_last() =~= a);
    let (done, cur) = line_scan(a);
    if cur.len() > 0 {
        assert(a.drop_last().push(a.last()) =~= a);
        assert(cur.last() == a.last());
    }
    assert(strip_cr(cur.push('\r')) =~= cur);
    assert(strip_cr(cur) == cur);
    assert(crlf.drop_last() =~= a.push('\r'));
    assert(a.push('\r').drop_last() =~= a);
    assert(line_scan(a.push('\r')) == (done, cur.push('\r')));
    assert(line_scan(crlf) == (done.push(cur), Seq::<char>::empty()));
    assert(line_scan(lf) == (done.push(cur), Seq::<char>::empty()));
}

} // verus!
