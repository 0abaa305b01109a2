//! The build oracle's logic: reading the build driver's diagnostic stream into
//! error records, and comparing records by their signature.
use vstd::prelude::*;

verus! {

// ---------------------------------------------------------------------------
// Text, as sequences of characters.

/// Unicode `White_Space`, the characters that `str::trim` removes.
pub open spec fn is_white(c: char) -> bool {
    let u = c as u32;
    (0x9 <= u <= 0xd) || u == 0x20 || u == 0x85 || u == 0xa0 || u == 0x1680 || (0x2000 <= u
        <= 0x200a) || u == 0x2028 || u == 0x2029 || u == 0x202f || u == 0x205f || u == 0x3000
}

pub fn white(c: char) -> (r: bool)
    ensures
        r == is_white(c),
{
    let u = c as u32;
    (0x9 <= u && u <= 0xd) || u == 0x20 || u == 0x85 || u == 0xa0 || u == 0x1680 || (0x2000 <= u
        && u <= 0x200a) || u == 0x2028 || u == 0x2029 || u == 0x202f || u == 0x205f || u == 0x3000
}

/// The number of characters of `s` before the first one that is not white.
pub open spec fn lead(s: Seq<char>) -> nat
    decreases s.len(),
{
    if s.len() > 0 && is_white(s[0]) {
        1 + lead(s.drop_first())
    } else {
        0
    }
}

/// The number of characters of `s` after the last one that is not white.
pub open spec fn trail(s: Seq<char>) -> nat
    decreases s.len(),
{
    if s.len() > 0 && is_white(s.last()) {
        1 + trail(s.drop_last())
    } else {
        0
    }
}

/// `s` without leading and trailing white space.
pub open spec fn trim(s: Seq<char>) -> Seq<char> {
    let t = s.skip(lead(s) as int);
    t.take(t.len() - trail(t))
}

/// The position of the first `c` in `s`, or the length of `s` if there is none.
pub open spec fn first_index(s: Seq<char>, c: char) -> nat
    decreases s.len(),
{
    if s.len() == 0 {
        0
    } else if s[0] == c {
        0
    } else {
        1 + first_index(s.drop_first(), c)
    }
}

/// The pieces of `s` between line feeds (a text without one is one piece).
pub open spec fn split_lines(s: Seq<char>) -> Seq<Seq<char>>
    decreases s.len(),
{
    if s.len() == 0 {
        seq![Seq::empty()]
    } else {
        let prev = split_lines(s.drop_last());
        if s.last() == '\n' {
            prev.push(Seq::empty())
        } else {
            prev.update(prev.len() - 1, prev.last().push(s.last()))
        }
    }
}

pub open spec fn error_word() -> Seq<char> {
    seq!['e', 'r', 'r', 'o', 'r']
}

pub open spec fn arrow_word() -> Seq<char> {
    seq!['-', '-', '>']
}

pub open spec fn starts_with(s: Seq<char>, p: Seq<char>) -> bool {
    s.len() >= p.len() && s.take(p.len() as int) == p
}

// ---------------------------------------------------------------------------
// Records.

/// A build error record as values: its code, the file it points at, and the
/// text of its first line.
pub struct Diagnostic {
    pub code: Option<Seq<char>>,
    pub file: Option<Seq<char>>,
    pub src: Seq<char>,
}

pub open spec fn opt_view(o: Option<String>) -> Option<Seq<char>> {
    match o {
        Some(s) => Some(s@),
        None => None,
    }
}

/// Represents a build error reported by the build driver.
#[derive(Debug, Clone, PartialEq, Eq)]
pub struct BuildError {
    pub error_code: Option<String>,
    pub source_file: Option<String>,
    pub error_src: String,
}

impl View for BuildError {
    type V = Diagnostic;

    open spec fn view(&self) -> Diagnostic {
        Diagnostic {
            code: opt_view(self.error_code),
            file: opt_view(self.source_file),
            src: self.error_src@,
        }
    }
}

/// The records of one build, in the order they were reported.
#[derive(Debug, Clone, PartialEq, Eq)]
pub struct BuildErros {
    pub errors: Vec<BuildError>,
}

pub open spec fn diagnostics(v: Seq<BuildError>) -> Seq<Diagnostic> {
    v.map_values(|e: BuildError| e@)
}

#[derive(Debug, PartialEq, Eq)]
pub enum ParseError {
    /// A location line came with no error line waiting for it.
    UnmatchedLocationInformation,
}

#[derive(Debug, PartialEq, Eq)]
pub enum CodeBuilderError {
    /// The build driver could not be run or read; holds the reason.
    IOError(String),
    CargoOutputParseError(ParseError),
}

/// A code builder: runs the build driver on a project to collect its errors.
pub enum CodeBuilder {
    /// The project in this directory.
    Path(String),
}

// ---------------------------------------------------------------------------
// The grammar of the diagnostic stream.

/// The code of an error line: the text inside the first `[...]` between the
/// keyword `error` and the first `:`.
pub open spec fn code_of(t: Seq<char>) -> Option<Seq<char>> {
    let rest = t.skip(5);
    let head = rest.take(first_index(rest, ':') as int);
    let inner = head.skip(first_index(head, '[') + 1int);
    if first_index(head, '[') < head.len() && first_index(inner, ']') < inner.len() {
        Some(inner.take(first_index(inner, ']') as int))
    } else {
        None
    }
}

/// The file of a location line `--> file:line:column`: the trimmed rest of the
/// line up to its first `:`.
pub open spec fn path_of(t: Seq<char>) -> Seq<char> {
    let rest = trim(t.skip(3));
    rest.take(first_index(rest, ':') as int)
}

/// Reading one more line: a pending error and the records so far, or `None`
/// once a location line came with no pending error.
pub open spec fn read_line(
    st: Option<(Option<Diagnostic>, Seq<Diagnostic>)>,
    line: Seq<char>,
) -> Option<(Option<Diagnostic>, Seq<Diagnostic>)> {
    match st {
        None => None,
        Some((pending, done)) => {
            let t = trim(line);
            if starts_with(t, error_word()) {
                Some((Some(Diagnostic { code: code_of(t), file: None, src: t }), done))
            } else if starts_with(t, arrow_word()) {
                match pending {
                    None => None,
                    Some(d) => Some(
                        (None, done.push(Diagnostic { file: Some(path_of(t)), ..d })),
                    ),
                }
            } else {
                Some((pending, done))
            }
        },
    }
}

pub open spec fn read_lines(lines: Seq<Seq<char>>) -> Option<(Option<Diagnostic>, Seq<Diagnostic>)>
    decreases lines.len(),
{
    if lines.len() == 0 {
        Some((None, Seq::empty()))
    } else {
        read_line(read_lines(lines.drop_last()), lines.last())
    }
}

/// The records of a diagnostic stream, or `None` where a location line has no
/// error line before it. A record starts at a line beginning `error` (after
/// trimming) and is kept once a later line beginning `-->` gives its file;
/// other lines are skipped.
pub open spec fn parse_diagnostics(text: Seq<char>) -> Option<Seq<Diagnostic>> {
    match read_lines(split_lines(text)) {
        Some((_, done)) => Some(done),
        None => None,
    }
}

/// Two records have the same signature: equal codes, or no code on either and
/// equal first lines.
pub open spec fn same_signature(a: Diagnostic, b: Diagnostic) -> bool {
    match (a.code, b.code) {
        (Some(x), Some(y)) => x == y,
        (None, None) => a.src == b.src,
        _ => false,
    }
}

// ---------------------------------------------------------------------------
// Reading.

/// Relies on `str::chars`: the characters of the text, in order.
#[verifier::external_body]
fn chars_of(s: &str) -> (r: Vec<char>)
    ensures
        r@ == s@,
{
    s.chars().collect()
}

/// Relies on `String`'s `FromIterator<char>`: the characters `from..to` of
/// `cs` as a string.
#[verifier::external_body]
fn string_of(cs: &Vec<char>, from: usize, to: usize) -> (r: String)
    requires
        from <= to <= cs@.len(),
    ensures
        r@ == cs@.subrange(from as int, to as int),
{
    cs[from..to].iter().collect()
}

proof fn lemma_lead(s: Seq<char>, i: int)
    requires
        0 <= i <= s.len(),
        forall|j: int| 0 <= j < i ==> is_white(#[trigger] s[j]),
        i == s.len() || !is_white(s[i]),
    ensures
        lead(s) == i,
    decreases i,
{
    if i > 0 {
        let d = s.drop_first();
        assert forall|j: int| 0 <= j < i - 1 implies is_white(#[trigger] d[j]) by {
            assert(d[j] == s[j + 1]);
        }
        if i - 1 < d.len() {
            assert(d[i - 1] == s[i]);
        }
        lemma_lead(d, i - 1);
    }
}

proof fn lemma_trail(s: Seq<char>, m: int)
    requires
        0 <= m <= s.len(),
        forall|j: int| s.len() - m <= j < s.len() ==> is_white(#[trigger] s[j]),
        m == s.len() || !is_white(s[s.len() - 1 - m]),
    ensures
        trail(s) == m,
    decreases m,
{
    if m > 0 {
        let d = s.drop_last();
        assert forall|j: int| d.len() - (m - 1) <= j < d.len() implies is_white(#[trigger] d[j]) by {
            assert(d[j] == s[j]);
        }
        if m - 1 < d.len() {
            assert(d[d.len() - 1 - (m - 1)] == s[s.len() - 1 - m]);
        }
        assert(is_white(s[s.len() - 1]));
        lemma_trail(d, m - 1);
    }
}

proof fn lemma_first_index(s: Seq<char>, c: char, i: int)
    requires
        0 <= i <= s.len(),
        forall|j: int| 0 <= j < i ==> #[trigger] s[j] != c,
        i == s.len() || s[i] == c,
    ensures
        first_index(s, c) == i,
    decreases i,
{
    if i > 0 {
        let d = s.drop_first();
        assert forall|j: int| 0 <= j < i - 1 implies #[trigger] d[j] != c by {
            assert(d[j] == s[j + 1]);
        }
        if i - 1 < d.len() {
            assert(d[i - 1] == s[i]);
        }
        lemma_first_index(d, c, i - 1);
    }
}

/// The bounds of `cs[from..to]` without its leading and trailing white space.
fn trim_bounds(cs: &Vec<char>, from: usize, to: usize) -> (r: (usize, usize))
    requires
        from <= to <= cs@.len(),
    ensures
        from <= r.0 <= r.1 <= to,
        cs@.subrange(r.0 as int, r.1 as int) == trim(cs@.subrange(from as int, to as int)),
{
    let ghost s = cs@.subrange(from as int, to as int);
    let mut a = from;
    while a < to && white(cs[a])
        invariant
            from <= a <= to <= cs@.len(),
            forall|j: int| from <= j < a ==> is_white(#[trigger] cs@[j]),
        decreases to - a,
    {
        a += 1;
    }
    proof {
        assert forall|j: int| 0 <= j < a - from implies is_white(#[trigger] s[j]) by {
            assert(s[j] == cs@[from + j]);
        }
        if a < to {
            assert(s[a - from] == cs@[a as int]);
        }
        lemma_lead(s, a - from);
    }
    let ghost t = s.skip(lead(s) as int);
    assert(t =~= cs@.subrange(a as int, to as int));
    let mut b = to;
    while b > a && white(cs[b - 1])
        invariant
            from <= a <= b <= to <= cs@.len(),
            forall|j: int| b <= j < to ==> is_white(#[trigger] cs@[j]),
        decreases b - a,
    {
        b -= 1;
    }
    proof {
        assert forall|j: int| t.len() - (to - b) <= j < t.len() implies is_white(#[trigger] t[j]) by {
            assert(t[j] == cs@[a + j]);
        }
        if b > a {
            assert(t[t.len() - 1 - (to - b)] == cs@[b - 1]);
        }
        lemma_trail(t, to - b);
        assert(t.take(t.len() - trail(t)) =~= cs@.subrange(a as int, b as int));
    }
    (a, b)
}

/// Whether `cs[from..to]` begins with `word`.
fn starts_with_at(cs: &Vec<char>, from: usize, to: usize, word: &Vec<char>) -> (r: bool)
    requires
        from <= to <= cs@.len(),
    ensures
        r == starts_with(cs@.subrange(from as int, to as int), word@),
{
    let ghost s = cs@.subrange(from as int, to as int);
    if to - from < word.len() {
        return false;
    }
    let mut k: usize = 0;
    while k < word.len()
        invariant
            0 <= k <= word@.len(),
            from + word@.len() <= to <= cs@.len(),
            s == cs@.subrange(from as int, to as int),
            forall|j: int| 0 <= j < k ==> cs@[from + j] == #[trigger] word@[j],
        decreases word.len() - k,
    {
        if cs[from + k] != word[k] {
            proof {
                assert(s[k as int] == cs@[from + k]);
                assert(s.take(word@.len() as int)[k as int] == s[k as int]);
                assert(s.take(word@.len() as int)[k as int] != word@[k as int]);
            }
            return false;
        }
        k += 1;
    }
    assert(s.take(word@.len() as int) =~= word@);
    true
}

/// The position of the first `c` in `cs[from..to]`, counted from `from`, or
/// `to - from` if there is none.
fn find_char(cs: &Vec<char>, from: usize, to: usize, c: char) -> (r: usize)
    requires
        from <= to <= cs@.len(),
    ensures
        r == first_index(cs@.subrange(from as int, to as int), c),
        r <= to - from,
{
    let mut k: usize = from;
    while k < to && cs[k] != c
        invariant
            from <= k <= to <= cs@.len(),
            forall|j: int| from <= j < k ==> #[trigger] cs@[j] != c,
        decreases to - k,
    {
        k += 1;
    }
    proof {
        let s = cs@.subrange(from as int, to as int);
        assert forall|j: int| 0 <= j < k - from implies #[trigger] s[j] != c by {
            assert(s[j] == cs@[from + j]);
        }
        if k < to {
            assert(s[k - from] == cs@[k as int]);
        }
        lemma_first_index(s, c, k - from);
    }
    k - from
}

/// Reads the line `cs[from..to]` into the pending record and the records so
/// far, as `read_line` says; `false` where the line is a location line with no
/// pending record.
fn take_line(
    cs: &Vec<char>,
    from: usize,
    to: usize,
    pending: &mut Option<BuildError>,
    errors: &mut Vec<BuildError>,
) -> (ok: bool)
    requires
        from <= to <= cs@.len(),
    ensures
        read_line(
            Some((opt_diag(*old(pending)), diagnostics(old(errors)@))),
            cs@.subrange(from as int, to as int),
        ) == if ok {
            Some((opt_diag(*final(pending)), diagnostics(final(errors)@)))
        } else {
            None::<(Option<Diagnostic>, Seq<Diagnostic>)>
        },
{
    let ghost line = cs@.subrange(from as int, to as int);
    let (a, b) = trim_bounds(cs, from, to);
    let ghost t = cs@.subrange(a as int, b as int);
    let error_vec = vec!['e', 'r', 'r', 'o', 'r'];
    let arrow_vec = vec!['-', '-', '>'];
    assert(error_vec@ =~= error_word());
    assert(arrow_vec@ =~= arrow_word());
    if starts_with_at(cs, a, b, &error_vec) {
        let ghost rest = t.skip(5);
        let colon = find_char(cs, a + 5, b, ':');
        let h = a + 5 + colon;
        let ghost head = rest.take(first_index(rest, ':') as int);
        proof {
            assert(rest =~= cs@.subrange(a + 5, b as int));
            assert(head =~= cs@.subrange(a + 5, h as int));
        }
        let open = find_char(cs, a + 5, h, '[');
        let code = if open < colon {
            let i0 = a + 5 + open + 1;
            let ghost inner = head.skip(first_index(head, '[') + 1int);
            assert(inner =~= cs@.subrange(i0 as int, h as int));
            let close = find_char(cs, i0, h, ']');
            if close < h - i0 {
                proof {
                    assert(inner.take(close as int) =~= cs@.subrange(i0 as int, i0 + close));
                }
                Some(string_of(cs, i0, i0 + close))
            } else {
                None
            }
        } else {
            None
        };
        let src = string_of(cs, a, b);
        *pending = Some(BuildError { error_code: code, source_file: None, error_src: src });
        proof {
            assert(opt_view(code) == code_of(t));
        }
        return true;
    }
    if starts_with_at(cs, a, b, &arrow_vec) {
        match pending.take() {
            None => {
                return false;
            },
            Some(e) => {
                let (c, d) = trim_bounds(cs, a + 3, b);
                proof {
                    assert(t.skip(3) =~= cs@.subrange(a + 3, b as int));
                }
                let k = find_char(cs, c, d, ':');
                let path = string_of(cs, c, c + k);
                proof {
                    assert(cs@.subrange(c as int, c + k) =~= trim(t.skip(3)).take(
                        first_index(trim(t.skip(3)), ':') as int,
                    ));
                }
                let ghost before = errors@;
                let rec = BuildError { error_code: e.error_code, source_file: Some(path), error_src: e.error_src };
                errors.push(rec);
                proof {
                    assert(diagnostics(errors@) =~= diagnostics(before).push(rec@));
                }
                return true;
            },
        }
    }
    true
}

pub open spec fn opt_diag(o: Option<BuildError>) -> Option<Diagnostic> {
    match o {
        Some(e) => Some(e@),
        None => None,
    }
}

proof fn lemma_split_step(s: Seq<char>, i: int)
    requires
        0 <= i < s.len(),
    ensures
        split_lines(s.take(i + 1)) == if s[i] == '\n' {
            split_lines(s.take(i)).push(Seq::empty())
        } else {
            let prev = split_lines(s.take(i));
            prev.update(prev.len() - 1, prev.last().push(s[i]))
        },
{
    assert(s.take(i + 1).drop_last() =~= s.take(i));
}

proof fn lemma_split_nonempty(s: Seq<char>)
    ensures
        split_lines(s).len() >= 1,
    decreases s.len(),
{
    if s.len() > 0 {
        lemma_split_nonempty(s.drop_last());
    }
}

impl BuildErros {
    /// Reads a diagnostic stream: the records that `parse_diagnostics` gives,
    /// or `UnmatchedLocationInformation` exactly where it gives none.
    pub fn try_from(value: String) -> (r: Result<Self, ParseError>)
        ensures
            match parse_diagnostics(value@) {
                Some(ds) => r is Ok && diagnostics(r->Ok_0.errors@) == ds,
                None => r == Err::<Self, ParseError>(ParseError::UnmatchedLocationInformation),
            },
    {
        let cs = chars_of(value.as_str());
        let ghost text = cs@;
        let mut pending: Option<BuildError> = None;
        let mut errors: Vec<BuildError> = Vec::new();
        let mut start: usize = 0;
        let mut i: usize = 0;
        proof {
            assert(diagnostics(errors@) =~= Seq::<Diagnostic>::empty());
            assert(text.take(0) =~= Seq::<char>::empty());
        }
        while i < cs.len()
            invariant
                0 <= start <= i <= cs@.len(),
                text == cs@,
                text == value@,
                split_lines(text.take(i as int)).last() == text.subrange(start as int, i as int),
                split_lines(text.take(i as int)).len() >= 1,
                read_lines(split_lines(text.take(i as int)).drop_last()) == Some(
                    (opt_diag(pending), diagnostics(errors@)),
                ),
            decreases cs.len() - i,
        {
            let ghost prev = split_lines(text.take(i as int));
            proof {
                lemma_split_step(text, i as int);
            }
            if cs[i] == '\n' {
                let ok = take_line(&cs, start, i, &mut pending, &mut errors);
                proof {
                    let now = split_lines(text.take(i + 1));
                    assert(now.drop_last() =~= prev);
                    assert(prev == prev.drop_last().push(prev.last()));
                    assert(read_lines(prev) == read_line(read_lines(prev.drop_last()), prev.last()));
                    assert(now.last() =~= text.subrange(i + 1, i + 1));
                }
                if !ok {
                    proof {
                        assert(read_lines(prev) is None);
                        assert(read_lines(split_lines(text.take(i + 1)).drop_last()) is None);
                        lemma_none_stays(text, i as int + 1);
                        assert(value@ == text);
                    }
                    return Err(ParseError::UnmatchedLocationInformation);
                }
                start = i + 1;
            } else {
                proof {
                    let now = split_lines(text.take(i + 1));
                    assert(now.drop_last() =~= prev.drop_last());
                    assert(now.last() =~= text.subrange(start as int, i + 1));
                }
            }
            i += 1;
        }
        let ok = take_line(&cs, start, i, &mut pending, &mut errors);
        proof {
            assert(text.take(i as int) =~= text);
            let all = split_lines(text);
            assert(all == all.drop_last().push(all.last()));
        }
        if !ok {
            return Err(ParseError::UnmatchedLocationInformation);
        }
        Ok(BuildErros { errors })
    }
}

/// Once reading fails it stays failed, whatever lines follow.
proof fn lemma_none_stays(text: Seq<char>, i: int)
    requires
        0 <= i <= text.len(),
        read_lines(split_lines(text.take(i)).drop_last()) is None,
    ensures
        parse_diagnostics(text) is None,
{
    let a = split_lines(text.take(i)).drop_last();
    lemma_split_nonempty(text.take(i));
    lemma_split_prefix(text, i, text.len() as int);
    assert(text.take(text.len() as int) =~= text);
    let u = split_lines(text);
    assert(u == split_lines(text.take(text.len() as int)));
    assert(a.len() <= u.len());
    assert(u.take(a.len() as int) == a);
    lemma_read_prefix_none(a, u);
}

proof fn lemma_read_prefix_none(a: Seq<Seq<char>>, u: Seq<Seq<char>>)
    requires
        read_lines(a) is None,
        a.len() <= u.len(),
        u.take(a.len() as int) == a,
    ensures
        read_lines(u) is None,
    decreases u.len(),
{
    if u.len() == a.len() {
        assert(u =~= u.take(a.len() as int));
    } else {
        assert(u.drop_last().take(a.len() as int) =~= u.take(a.len() as int));
        lemma_read_prefix_none(a, u.drop_last());
    }
}

/// Reading further only adds lines after the complete ones read so far.
proof fn lemma_split_prefix(text: Seq<char>, i: int, j: int)
    requires
        0 <= i <= j <= text.len(),
    ensures
        split_lines(text.take(j)).len() >= split_lines(text.take(i)).len(),
        split_lines(text.take(j)).take(split_lines(text.take(i)).len() - 1) == split_lines(
            text.take(i),
        ).drop_last(),
    decreases j - i,
{
    lemma_split_nonempty(text.take(i));
    if j == i {
        assert(split_lines(text.take(j)).take(split_lines(text.take(i)).len() - 1) =~= split_lines(
            text.take(i),
        ).drop_last());
    } else {
        lemma_split_prefix(text, i, j - 1);
        lemma_split_step(text, j - 1);
        lemma_split_nonempty(text.take(j - 1));
        let prev = split_lines(text.take(j - 1));
        let now = split_lines(text.take(j));
        let n = split_lines(text.take(i)).len() - 1;
        assert(now.take(n) =~= prev.take(n));
    }
}

/// A line whose trimmed text begins with `error`.
pub open spec fn is_error_line(l: Seq<char>) -> bool {
    starts_with(trim(l), error_word())
}

/// A line whose trimmed text begins with `-->` (and not with `error`).
pub open spec fn is_location_line(l: Seq<char>) -> bool {
    !is_error_line(l) && starts_with(trim(l), arrow_word())
}

/// Line `k` is a location line with no error line waiting for it: every error
/// line before it already got a location line before line `k`.
pub open spec fn unmatched_at(lines: Seq<Seq<char>>, k: int) -> bool {
    &&& 0 <= k < lines.len()
    &&& is_location_line(lines[k])
    &&& forall|j: int|
        0 <= j < k && is_error_line(#[trigger] lines[j]) ==> exists|m: int|
            j < m < k && is_location_line(#[trigger] lines[m])
}

/// While reading succeeds, an error is pending exactly when some error line
/// has come with no location line after it.
proof fn lemma_pending(lines: Seq<Seq<char>>)
    requires
        read_lines(lines) is Some,
    ensures
        (read_lines(lines)->Some_0.0 is None) <==> forall|j: int|
            0 <= j < lines.len() && is_error_line(#[trigger] lines[j]) ==> exists|m: int|
                j < m < lines.len() && is_location_line(#[trigger] lines[m]),
    decreases lines.len(),
{
    if lines.len() > 0 {
        let pre = lines.drop_last();
        let n = lines.len() - 1;
        assert(read_lines(pre) is Some);
        lemma_pending(pre);
        let l = lines.last();
        if is_error_line(l) {
            assert(!(exists|m: int| n < m < lines.len() && is_location_line(#[trigger] lines[m])));
        } else if is_location_line(l) {
            assert forall|j: int| 0 <= j < lines.len() && is_error_line(#[trigger] lines[j]) implies exists|m: int|
                j < m < lines.len() && is_location_line(#[trigger] lines[m]) by {
                assert(is_location_line(lines[n]));
            }
        } else {
            assert forall|j: int| 0 <= j < n && is_error_line(#[trigger] pre[j]) <==> 0 <= j < n && is_error_line(lines[j]) by {
                if 0 <= j < n { assert(pre[j] == lines[j]); }
            }
            if forall|j: int| 0 <= j < lines.len() && is_error_line(#[trigger] lines[j]) ==> exists|m: int|
                j < m < lines.len() && is_location_line(#[trigger] lines[m]) {
                assert forall|j: int| 0 <= j < pre.len() && is_error_line(#[trigger] pre[j]) implies exists|m: int|
                    j < m < pre.len() && is_location_line(#[trigger] pre[m]) by {
                    assert(pre[j] == lines[j]);
                    let m = choose|m: int| j < m < lines.len() && is_location_line(#[trigger] lines[m]);
                    assert(m != n);
                    assert(pre[m] == lines[m]);
                }
            }
            if forall|j: int| 0 <= j < pre.len() && is_error_line(#[trigger] pre[j]) ==> exists|m: int|
                j < m < pre.len() && is_location_line(#[trigger] pre[m]) {
                assert forall|j: int| 0 <= j < lines.len() && is_error_line(#[trigger] lines[j]) implies exists|m: int|
                    j < m < lines.len() && is_location_line(#[trigger] lines[m]) by {
                    assert(j != n);
                    assert(pre[j] == lines[j]);
                    let m = choose|m: int| j < m < pre.len() && is_location_line(#[trigger] pre[m]);
                    assert(pre[m] == lines[m]);
                }
            }
        }
    }
}

/// Reading a diagnostic stream fails exactly when one of its lines is a
/// location line with no error line waiting for it.
pub proof fn lemma_unmatched_location(text: Seq<char>)
    ensures
        parse_diagnostics(text) is None <==> exists|k: int| #[trigger]
            unmatched_at(split_lines(text), k),
{
    lemma_read_none(split_lines(text));
}

proof fn lemma_read_none(lines: Seq<Seq<char>>)
    ensures
        read_lines(lines) is None <==> exists|k: int| #[trigger] unmatched_at(lines, k),
    decreases lines.len(),
{
    if lines.len() > 0 {
        let pre = lines.drop_last();
        let n = lines.len() - 1;
        lemma_read_none(pre);
        assert forall|k: int| 0 <= k < n implies #[trigger] unmatched_at(pre, k) == unmatched_at(lines, k) by {
            assert(pre[k] == lines[k]);
            assert forall|j: int| 0 <= j < k implies pre[j] == lines[j] by {}
            if unmatched_at(pre, k) {
                assert forall|j: int| 0 <= j < k && is_error_line(#[trigger] lines[j]) implies exists|m: int|
                    j < m < k && is_location_line(#[trigger] lines[m]) by {
                    assert(is_error_line(pre[j]));
                    let m = choose|m: int| j < m < k && is_location_line(#[trigger] pre[m]);
                    assert(pre[m] == lines[m]);
                }
            }
            if unmatched_at(lines, k) {
                assert forall|j: int| 0 <= j < k && is_error_line(#[trigger] pre[j]) implies exists|m: int|
                    j < m < k && is_location_line(#[trigger] pre[m]) by {
                    assert(is_error_line(lines[j]));
                    let m = choose|m: int| j < m < k && is_location_line(#[trigger] lines[m]);
                    assert(pre[m] == lines[m]);
                }
            }
        }
        if read_lines(pre) is None {
            let k = choose|k: int| #[trigger] unmatched_at(pre, k);
            assert(unmatched_at(lines, k));
        } else {
            lemma_pending(pre);
            assert forall|j: int| 0 <= j < n && is_error_line(#[trigger] pre[j]) <==> 0 <= j < n && is_error_line(lines[j]) by {
                if 0 <= j < n { assert(pre[j] == lines[j]); }
            }
            if read_lines(lines) is None {
                assert(unmatched_at(lines, n)) by {
                    assert forall|j: int| 0 <= j < n && is_error_line(#[trigger] lines[j]) implies exists|m: int|
                        j < m < n && is_location_line(#[trigger] lines[m]) by {
                        assert(is_error_line(pre[j]));
                        let m = choose|m: int| j < m < pre.len() && is_location_line(#[trigger] pre[m]);
                        assert(pre[m] == lines[m]);
                    }
                }
            } else {
                if exists|k: int| #[trigger] unmatched_at(lines, k) {
                    let k = choose|k: int| #[trigger] unmatched_at(lines, k);
                    if k < n {
                        assert(unmatched_at(pre, k));
                    } else {
                        assert forall|j: int| 0 <= j < pre.len() && is_error_line(#[trigger] pre[j]) implies exists|m: int|
                            j < m < pre.len() && is_location_line(#[trigger] pre[m]) by {
                            assert(is_error_line(lines[j]));
                            let m = choose|m: int| j < m < n && is_location_line(#[trigger] lines[m]);
                            assert(pre[m] == lines[m]);
                        }
                    }
                }
            }
        }
    }
}

impl BuildError {
    /// Whether the two records have the same signature.
    pub fn same_signature(&self, other: &BuildError) -> (r: bool)
        ensures
            r == same_signature(self@, other@),
    {
        match &self.error_code {
            Some(x) => match &other.error_code {
                Some(y) => *x == *y,
                None => false,
            },
            None => match &other.error_code {
                Some(_) => false,
                None => self.error_src == other.error_src,
            },
        }
    }
}

/// Signature equality is an equivalence: every record matches itself, the
/// relation is symmetric, and a re-run whose first error matches an accepted
/// variant's also matches the master that the variant matched.
pub proof fn lemma_signature_equivalence(master: Diagnostic, variant: Diagnostic, rerun: Diagnostic)
    ensures
        same_signature(master, master),
        same_signature(variant, master) ==> same_signature(master, variant),
        same_signature(variant, master) && same_signature(rerun, variant) ==> same_signature(
            rerun,
            master,
        ),
{
}

} // verus!
