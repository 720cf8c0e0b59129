//! The corpus file format: comma-separated rows `id,text,score` under a
//! fixed header line. The grammar is stated by spec functions over character
//! sequences; the executable parser is proved to decide exactly that grammar.
use vstd::prelude::*;

verus! {

/// A raw corpus row before filtering: id, text, score.
pub type RawRow = (u32, Seq<char>, i32);

/// Relies on str::chars: it yields the characters of the string in order.
#[verifier::external_body]
pub(crate) fn chars_of(s: &str) -> (r: Vec<char>)
    ensures
        r@ == s@,
{
    s.chars().collect()
}

/// Relies on String::from_iter over chars: the built string holds exactly the
/// given characters in order.
#[verifier::external_body]
pub(crate) fn string_from_chars(v: &Vec<char>) -> (r: String)
    ensures
        r@ == v@,
{
    v.iter().collect()
}

/// The header line every corpus file must start with.
pub open spec fn header() -> Seq<char> {
    "id,text,score"@
}

pub open spec fn is_digit(c: char) -> bool {
    '0' <= c && c <= '9'
}

pub open spec fn all_digits(s: Seq<char>) -> bool {
    forall|i: int| 0 <= i < s.len() ==> is_digit(#[trigger] s[i])
}

/// The number a digit string denotes, most significant digit first.
pub open spec fn digits_val(s: Seq<char>) -> int
    decreases s.len(),
{
    if s.len() == 0 {
        0
    } else {
        digits_val(s.drop_last()) * 10 + (s.last() as int - '0' as int)
    }
}

proof fn lemma_digits_val_nonneg(s: Seq<char>)
    requires
        all_digits(s),
    ensures
        digits_val(s) >= 0,
    decreases s.len(),
{
    if s.len() > 0 {
        assert(all_digits(s.drop_last())) by {
            assert(forall|i: int|
                0 <= i < s.len() - 1 ==> #[trigger] s.drop_last()[i] == s[i]);
        }
        lemma_digits_val_nonneg(s.drop_last());
        assert(is_digit(s.last()));
    }
}

/// A digit string denotes at least what any of its prefixes denotes.
proof fn lemma_digits_val_prefix(s: Seq<char>, k: int)
    requires
        all_digits(s),
        0 <= k <= s.len(),
    ensures
        digits_val(s.take(k)) <= digits_val(s),
    decreases s.len(),
{
    if k < s.len() {
        assert(all_digits(s.drop_last())) by {
            assert(forall|i: int|
                0 <= i < s.len() - 1 ==> #[trigger] s.drop_last()[i] == s[i]);
        }
        assert(s.take(k) =~= s.drop_last().take(k));
        lemma_digits_val_prefix(s.drop_last(), k);
        lemma_digits_val_nonneg(s.drop_last());
        assert(is_digit(s.last()));
    } else {
        assert(s.take(k) =~= s);
    }
}

/// What an unsigned decimal field denotes, if it is well formed and in range.
pub open spec fn parse_u32(s: Seq<char>) -> Option<u32> {
    if s.len() == 0 || !all_digits(s) {
        None
    } else if digits_val(s) > u32::MAX {
        None
    } else {
        Some(digits_val(s) as u32)
    }
}

/// What a signed decimal field denotes: an optional leading minus sign, then
/// digits, in the range of the score type.
pub open spec fn parse_i32(s: Seq<char>) -> Option<i32> {
    if s.len() > 0 && s[0] == '-' {
        let d = s.skip(1);
        if d.len() == 0 || !all_digits(d) {
            None
        } else if digits_val(d) > 0x8000_0000 {
            None
        } else {
            Some((0 - digits_val(d)) as i32)
        }
    } else {
        if s.len() == 0 || !all_digits(s) {
            None
        } else if digits_val(s) > i32::MAX {
            None
        } else {
            Some(digits_val(s) as i32)
        }
    }
}

/// The first position at or after `i` where `c` stands, or -1.
pub open spec fn find_from(s: Seq<char>, c: char, i: int) -> int
    decreases s.len() - i,
{
    if i < 0 || i >= s.len() {
        -1
    } else if s[i] == c {
        i
    } else {
        find_from(s, c, i + 1)
    }
}

/// The last position where `c` stands, or -1.
pub open spec fn rfind(s: Seq<char>, c: char) -> int
    decreases s.len(),
{
    if s.len() == 0 {
        -1
    } else if s.last() == c {
        s.len() - 1
    } else {
        rfind(s.drop_last(), c)
    }
}

proof fn lemma_find_from_here(s: Seq<char>, c: char, k: int, i: int)
    requires
        0 <= k <= i < s.len(),
        s[i] == c,
        forall|p: int| k <= p < i ==> s[p] != c,
    ensures
        find_from(s, c, k) == i,
    decreases i - k,
{
    if k < i {
        lemma_find_from_here(s, c, k + 1, i);
    }
}

proof fn lemma_find_from_none(s: Seq<char>, c: char, k: int)
    requires
        0 <= k,
        forall|p: int| k <= p < s.len() ==> s[p] != c,
    ensures
        find_from(s, c, k) == -1,
    decreases s.len() - k,
{
    if k < s.len() {
        lemma_find_from_none(s, c, k + 1);
    }
}

/// A line with its trailing carriage return removed, if it carries one.
pub open spec fn strip_cr(l: Seq<char>) -> Seq<char> {
    if l.len() > 0 && l.last() == '\r' {
        l.drop_last()
    } else {
        l
    }
}

/// What one non-empty, already-stripped line denotes: the digits before the
/// first comma are the id, the digits after the last comma are the score, and
/// everything between the two commas is the text.
pub open spec fn parse_line(l: Seq<char>) -> Option<RawRow> {
    let i = find_from(l, ',', 0);
    let j = rfind(l, ',');
    if i < 0 || j <= i {
        None
    } else {
        match (parse_u32(l.take(i)), parse_i32(l.skip(j + 1))) {
            (Some(id), Some(score)) => Some((id, l.subrange(i + 1, j), score)),
            _ => None,
        }
    }
}

/// The content split at every newline; always at least one piece.
pub open spec fn split_lines(s: Seq<char>) -> Seq<Seq<char>>
    decreases s.len(),
{
    if s.len() == 0 {
        seq![Seq::empty()]
    } else {
        let rest = split_lines(s.drop_last());
        let c = s.last();
        if c == '\n' {
            rest.push(Seq::empty())
        } else {
            rest.update(rest.len() - 1, rest.last().push(c))
        }
    }
}

proof fn lemma_split_lines_len(s: Seq<char>)
    ensures
        split_lines(s).len() >= 1,
    decreases s.len(),
{
    if s.len() > 0 {
        lemma_split_lines_len(s.drop_last());
    }
}

/// What a sequence of data lines denotes: empty lines are skipped, every
/// other line must be a well-formed row.
pub open spec fn parse_rows(lines: Seq<Seq<char>>) -> Option<Seq<RawRow>>
    decreases lines.len(),
{
    if lines.len() == 0 {
        Some(Seq::empty())
    } else {
        match parse_rows(lines.drop_last()) {
            None => None,
            Some(rs) => {
                let l = strip_cr(lines.last());
                if l.len() == 0 {
                    Some(rs)
                } else {
                    match parse_line(l) {
                        None => None,
                        Some(row) => Some(rs.push(row)),
                    }
                }
            },
        }
    }
}

/// Once a prefix of the lines fails to parse, the whole fails.
pub(crate) proof fn lemma_parse_rows_none_extends(lines: Seq<Seq<char>>, k: int)
    requires
        0 <= k <= lines.len(),
        parse_rows(lines.take(k)) is None,
    ensures
        parse_rows(lines) is None,
    decreases lines.len(),
{
    if k == lines.len() {
        assert(lines.take(k) =~= lines);
    } else {
        assert(lines.take(k) =~= lines.drop_last().take(k));
        lemma_parse_rows_none_extends(lines.drop_last(), k);
    }
}

/// What a whole corpus file denotes: the fixed header line, then data rows.
pub open spec fn parse_csv(content: Seq<char>) -> Option<Seq<RawRow>> {
    let lines = split_lines(content);
    if strip_cr(lines[0]) == header() {
        parse_rows(lines.skip(1))
    } else {
        None
    }
}

/// Split the content at every newline.
pub(crate) fn split_into_lines(content: &Vec<char>) -> (r: Vec<Vec<char>>)
    ensures
        r.deep_view() == split_lines(content@),
        r@.len() >= 1,
{
    let mut lines: Vec<Vec<char>> = Vec::new();
    let mut cur: Vec<char> = Vec::new();
    let n = content.len();
    proof {
        assert(content@.take(0) =~= Seq::<char>::empty());
        assert(lines.deep_view().push(cur@) =~~= split_lines(content@.take(0)));
    }
    for i in 0..n
        invariant
            n == content@.len(),
            lines.deep_view().push(cur@) == split_lines(content@.take(i as int)),
    {
        let ghost pre = content@.take(i as int);
        proof {
            assert(content@.take(i as int + 1).drop_last() =~= pre);
            assert(content@.take(i as int + 1).last() == content@[i as int]);
        }
        let c = content[i];
        if c == '\n' {
            let ghost old_lines = lines.deep_view();
            let ghost old_cur = cur@;
            lines.push(cur);
            cur = Vec::new();
            proof {
                assert(lines.deep_view() =~~= old_lines.push(old_cur));
                assert(old_cur == split_lines(pre).last());
                assert(lines.deep_view().push(cur@) =~~= split_lines(pre).push(Seq::empty()));
            }
        } else {
            let ghost old_cur = cur@;
            cur.push(c);
            proof {
                let rest = split_lines(pre);
                assert(rest == lines.deep_view().push(old_cur));
                assert(rest.len() >= 1);
                assert(rest.last() == old_cur);
                assert(lines.deep_view().push(cur@) =~~= rest.update(
                    rest.len() - 1,
                    rest.last().push(c),
                ));
            }
        }
    }
    proof {
        assert(content@.take(n as int) =~= content@);
    }
    let ghost old_lines = lines.deep_view();
    let ghost old_cur = cur@;
    lines.push(cur);
    proof {
        assert(lines.deep_view() =~~= old_lines.push(old_cur));
        lemma_split_lines_len(content@);
    }
    lines
}

/// A copy of the line without its trailing carriage return.
pub(crate) fn stripped_of(line: &Vec<char>) -> (r: Vec<char>)
    ensures
        r@ == strip_cr(line@),
{
    let mut r = line.clone();
    proof {
        assert(r@ =~= line@);
    }
    if r.len() > 0 && r[r.len() - 1] == '\r' {
        r.pop();
    }
    r
}

/// Whether two character vectors hold the same characters.
pub(crate) fn chars_eq(a: &Vec<char>, b: &Vec<char>) -> (r: bool)
    ensures
        r == (a@ == b@),
{
    if a.len() != b.len() {
        return false;
    }
    let n = a.len();
    for i in 0..n
        invariant
            n == a@.len(),
            n == b@.len(),
            forall|p: int| 0 <= p < i ==> a@[p] == b@[p],
    {
        if a[i] != b[i] {
            return false;
        }
    }
    proof {
        assert(a@ =~= b@);
    }
    true
}

/// The denoted value of the digits in `line[from..to]`, when they are well
/// formed and denote no more than `cap`.
fn parse_digits_range(line: &Vec<char>, from: usize, to: usize, cap: u64) -> (r: Option<u64>)
    requires
        from <= to <= line@.len(),
        cap <= 0xFFFF_FFFF_FFFFu64,
    ensures
        ({
            let s = line@.subrange(from as int, to as int);
            match r {
                Some(v) => s.len() > 0 && all_digits(s) && digits_val(s) == v && v <= cap,
                None => s.len() == 0 || !all_digits(s) || digits_val(s) > cap,
            }
        }),
{
    let ghost s = line@.subrange(from as int, to as int);
    if from == to {
        return None;
    }
    let mut acc: u64 = 0;
    let mut p = from;
    while p < to
        invariant
            from <= p <= to <= line@.len(),
            s == line@.subrange(from as int, to as int),
            cap <= 0xFFFF_FFFF_FFFFu64,
            all_digits(s.take(p - from)),
            acc == digits_val(s.take(p - from)),
            acc <= cap,
        decreases to - p,
    {
        let c = line[p];
        proof {
            assert(s[p - from] == line@[p as int]);
            assert(s.take(p - from + 1).drop_last() =~= s.take(p - from));
            assert(s.take(p - from + 1).last() == s[p - from]);
        }
        if c < '0' || c > '9' {
            proof {
                assert(!is_digit(s[p - from]));
                assert(!all_digits(s));
            }
            return None;
        }
        let d: u64 = (c as u32 - 48) as u64;
        proof {
            assert(is_digit(s[p - from]));
            assert(d == s[p - from] as int - '0' as int);
            assert(all_digits(s.take(p - from + 1)));
        }
        acc = acc * 10 + d;
        proof {
            assert(acc == digits_val(s.take(p - from + 1)));
        }
        if acc > cap {
            proof {
                if all_digits(s) {
                    lemma_digits_val_prefix(s, p - from + 1);
                }
            }
            return None;
        }
        p = p + 1;
    }
    proof {
        assert(s.take(to - from) =~= s);
    }
    Some(acc)
}

/// Parse one already-stripped, non-empty data line into a raw row.
pub(crate) fn parse_line_exec(line: &Vec<char>) -> (r: Option<(u32, String, i32)>)
    ensures
        match r {
            Some(t) => parse_line(line@) == Some((t.0, t.1@, t.2)),
            None => parse_line(line@) is None,
        },
{
    let n = line.len();
    let mut q: usize = 0;
    while q < n && line[q] != ','
        invariant
            n == line@.len(),
            q <= n,
            forall|p: int| 0 <= p < q ==> line@[p] != ',',
        decreases n - q,
    {
        q = q + 1;
    }
    if q == n {
        proof {
            lemma_find_from_none(line@, ',', 0);
        }
        return None;
    }
    let i = q;
    proof {
        lemma_find_from_here(line@, ',', 0, i as int);
    }
    let mut q2: usize = n;
    proof {
        assert(line@.take(n as int) =~= line@);
    }
    while q2 > 0 && line[q2 - 1] != ','
        invariant
            n == line@.len(),
            q2 <= n,
            rfind(line@, ',') == rfind(line@.take(q2 as int), ','),
        decreases q2,
    {
        proof {
            assert(line@.take(q2 as int).drop_last() =~= line@.take(q2 as int - 1));
            assert(line@.take(q2 as int).last() == line@[q2 as int - 1]);
        }
        q2 = q2 - 1;
    }
    if q2 == 0 {
        proof {
            assert(line@.take(0) =~= Seq::<char>::empty());
        }
        return None;
    }
    let j = q2 - 1;
    proof {
        assert(line@.take(q2 as int).last() == line@[j as int]);
        assert(rfind(line@.take(q2 as int), ',') == j as int);
    }
    if j <= i {
        return None;
    }
    let id64 = parse_digits_range(line, 0, i, 0xFFFF_FFFFu64);
    proof {
        assert(line@.subrange(0, i as int) =~= line@.take(i as int));
    }
    let id = match id64 {
        None => {
            return None;
        },
        Some(v) => v as u32,
    };
    let ghost sfield = line@.skip(j + 1);
    proof {
        assert(line@.subrange(j as int + 1, n as int) =~= sfield);
    }
    let score: i32 = if j + 1 < n && line[j + 1] == '-' {
        proof {
            assert(sfield[0] == '-');
            assert(line@.subrange(j as int + 2, n as int) =~= sfield.skip(1));
        }
        match parse_digits_range(line, j + 2, n, 0x8000_0000u64) {
            None => {
                return None;
            },
            Some(v) => (0i64 - (v as i64)) as i32,
        }
    } else {
        proof {
            if sfield.len() > 0 && sfield[0] == '-' {
                assert(line@[j as int + 1] == '-');
            }
        }
        match parse_digits_range(line, j + 1, n, 0x7FFF_FFFFu64) {
            None => {
                return None;
            },
            Some(v) => v as i32,
        }
    };
    let mut tchars: Vec<char> = Vec::new();
    let mut p = i + 1;
    while p < j
        invariant
            i < j < n == line@.len(),
            i + 1 <= p <= j,
            tchars@ == line@.subrange(i as int + 1, p as int),
        decreases j - p,
    {
        tchars.push(line[p]);
        proof {
            assert(tchars@ =~= line@.subrange(i as int + 1, p as int + 1));
        }
        p = p + 1;
    }
    let text = string_from_chars(&tchars);
    Some((id, text, score))
}

} // verus!
