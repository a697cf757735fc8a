//! Logging levels, and filters that enable a set of them.
//!
//! A level's name is its upper-case form; parsing takes any mix of case
//! and ignores white space around the name.  A filter is a set of
//! levels, built from levels by the rules of [`LogFilter::from`] and by
//! union.
use vstd::prelude::*;
use vstd::string::StringExecFns;

verus! {

/// The characters of `s`, in order.
pub fn chars_of(s: &str) -> (r: Vec<char>)
    ensures
        r@ == s@,
{
    broadcast use vstd::string::group_string_axioms;
    let mut r: Vec<char> = Vec::new();
    for c in iter: s.chars()
        invariant
            r@ == iter.seq().take(iter.index() as int),
    {
        r.push(c);
    }
    assert(r@ =~= s@);
    r
}

/// Levels for logging, declared in the order of their bits in a filter,
/// so that a level cast to a number gives its bit.
#[derive(Debug, Copy, Clone, PartialEq, Eq, Structural)]
#[non_exhaustive]
pub enum LogLevel {
    /// Tracing (very low priority or verbose logging).
    Trace,
    /// Debugging (low priority logging).
    Debug,
    /// Informational logging.
    Info,
    /// Warnings.
    Warn,
    /// Errors.
    Error,
    /// Records of key-value pairs intended for machine processing.
    Audit,
    /// Span open, such as an actor starting up.
    Open,
    /// Span close, such as an actor terminating.
    Close,
    /// Level used to disable the severity levels: anything logged at this
    /// level is ignored.
    Off,
}

/// The bit that a level has in a filter: Trace to Error take 0 to 4,
/// then Audit 5, Open 6, Close 7, and Off 8.
pub open spec fn level_bit(l: LogLevel) -> u32 {
    match l {
        LogLevel::Trace => 0,
        LogLevel::Debug => 1,
        LogLevel::Info => 2,
        LogLevel::Warn => 3,
        LogLevel::Error => 4,
        LogLevel::Audit => 5,
        LogLevel::Open => 6,
        LogLevel::Close => 7,
        LogLevel::Off => 8,
    }
}

/// The name of a level, in upper case.
pub open spec fn level_name(l: LogLevel) -> Seq<char> {
    match l {
        LogLevel::Trace => seq!['T', 'R', 'A', 'C', 'E'],
        LogLevel::Debug => seq!['D', 'E', 'B', 'U', 'G'],
        LogLevel::Info => seq!['I', 'N', 'F', 'O'],
        LogLevel::Warn => seq!['W', 'A', 'R', 'N'],
        LogLevel::Error => seq!['E', 'R', 'R', 'O', 'R'],
        LogLevel::Off => seq!['O', 'F', 'F'],
        LogLevel::Audit => seq!['A', 'U', 'D', 'I', 'T'],
        LogLevel::Open => seq!['O', 'P', 'E', 'N'],
        LogLevel::Close => seq!['C', 'L', 'O', 'S', 'E'],
    }
}

/// Every level, in the order that a filter lists them.
pub open spec fn all_level_seq() -> Seq<LogLevel> {
    seq![
        LogLevel::Trace,
        LogLevel::Debug,
        LogLevel::Info,
        LogLevel::Warn,
        LogLevel::Error,
        LogLevel::Off,
        LogLevel::Audit,
        LogLevel::Open,
        LogLevel::Close,
    ]
}

impl LogLevel {
    /// The bit of this level in a filter.
    fn bit(self) -> (r: u32)
        ensures
            r == level_bit(self),
    {
        match self {
            LogLevel::Trace => 0,
            LogLevel::Debug => 1,
            LogLevel::Info => 2,
            LogLevel::Warn => 3,
            LogLevel::Error => 4,
            LogLevel::Audit => 5,
            LogLevel::Open => 6,
            LogLevel::Close => 7,
            LogLevel::Off => 8,
        }
    }

    /// The name of the level, in upper case.
    pub fn name(self) -> (r: &'static str)
        ensures
            r@ == level_name(self),
    {
        match self {
            LogLevel::Trace => {
                proof {
                    reveal_strlit("TRACE");
                }
                assert("TRACE"@ =~= level_name(self));
                "TRACE"
            },
            LogLevel::Debug => {
                proof {
                    reveal_strlit("DEBUG");
                }
                assert("DEBUG"@ =~= level_name(self));
                "DEBUG"
            },
            LogLevel::Info => {
                proof {
                    reveal_strlit("INFO");
                }
                assert("INFO"@ =~= level_name(self));
                "INFO"
            },
            LogLevel::Warn => {
                proof {
                    reveal_strlit("WARN");
                }
                assert("WARN"@ =~= level_name(self));
                "WARN"
            },
            LogLevel::Error => {
                proof {
                    reveal_strlit("ERROR");
                }
                assert("ERROR"@ =~= level_name(self));
                "ERROR"
            },
            LogLevel::Off => {
                proof {
                    reveal_strlit("OFF");
                }
                assert("OFF"@ =~= level_name(self));
                "OFF"
            },
            LogLevel::Audit => {
                proof {
                    reveal_strlit("AUDIT");
                }
                assert("AUDIT"@ =~= level_name(self));
                "AUDIT"
            },
            LogLevel::Open => {
                proof {
                    reveal_strlit("OPEN");
                }
                assert("OPEN"@ =~= level_name(self));
                "OPEN"
            },
            LogLevel::Close => {
                proof {
                    reveal_strlit("CLOSE");
                }
                assert("CLOSE"@ =~= level_name(self));
                "CLOSE"
            },
        }
    }

    /// All the defined levels.
    pub fn all_levels() -> (r: &'static [LogLevel])
        ensures
            r@ == all_level_seq(),
    {
        let r: &'static [LogLevel] = &[
            LogLevel::Trace,
            LogLevel::Debug,
            LogLevel::Info,
            LogLevel::Warn,
            LogLevel::Error,
            LogLevel::Off,
            LogLevel::Audit,
            LogLevel::Open,
            LogLevel::Close,
        ];
        assert(r@ =~= all_level_seq());
        r
    }

    /// The name of the level, as a new string.
    pub fn to_string(self) -> (r: String)
        ensures
            r@ == level_name(self),
    {
        String::from_str(self.name())
    }
}

/// Error for a string that names no logging level.
#[derive(Debug, PartialEq, Eq, Structural)]
pub struct LogLevelError;

impl LogLevelError {
    /// The message for this error.
    pub fn to_string(&self) -> (r: String)
        ensures
            r@ == error_text(),
    {
        proof {
            reveal_strlit("invalid logging level");
        }
        let r = String::from_str("invalid logging level");
        assert(r@ =~= error_text());
        r
    }
}

/// The message of [`LogLevelError`].
pub open spec fn error_text() -> Seq<char> {
    seq!['i', 'n', 'v', 'a', 'l', 'i', 'd', ' ', 'l', 'o', 'g', 'g', 'i', 'n', 'g', ' ', 'l', 'e', 'v', 'e', 'l']
}

/// Whether a character has the Unicode `White_Space` property.
pub open spec fn is_white_space(c: char) -> bool {
    let v = c as u32;
    ||| 0x09 <= v <= 0x0D
    ||| v == 0x20
    ||| v == 0x85
    ||| v == 0xA0
    ||| v == 0x1680
    ||| 0x2000 <= v <= 0x200A
    ||| v == 0x2028
    ||| v == 0x2029
    ||| v == 0x202F
    ||| v == 0x205F
    ||| v == 0x3000
}

/// The code of a character with ASCII upper-case letters taken to lower
/// case.
pub open spec fn lower_code(c: char) -> u32 {
    let v = c as u32;
    if 0x41 <= v <= 0x5A { (v + 32) as u32 } else { v }
}

/// Two strings equal but for the case of ASCII letters.
pub open spec fn eq_ignore_case(a: Seq<char>, b: Seq<char>) -> bool {
    &&& a.len() == b.len()
    &&& forall|i: int| 0 <= i < a.len() ==> #[trigger] lower_code(a[i]) == lower_code(b[i])
}

/// `s` without its leading white space.
pub open spec fn trim_start_ws(s: Seq<char>) -> Seq<char>
    decreases s.len(),
{
    if s.len() > 0 && is_white_space(s[0]) {
        trim_start_ws(s.drop_first())
    } else {
        s
    }
}

/// `s` without its trailing white space.
pub open spec fn trim_end_ws(s: Seq<char>) -> Seq<char>
    decreases s.len(),
{
    if s.len() > 0 && is_white_space(s.last()) {
        trim_end_ws(s.drop_last())
    } else {
        s
    }
}

/// `s` without white space at either end.
pub open spec fn trim_ws(s: Seq<char>) -> Seq<char> {
    trim_end_ws(trim_start_ws(s))
}

/// `s`, trimmed, names the level `l`, in any mix of case.
pub open spec fn parses_as(s: Seq<char>, l: LogLevel) -> bool {
    eq_ignore_case(trim_ws(s), level_name(l))
}

/// The white space test of [`is_white_space`].
fn white_space(c: char) -> (r: bool)
    ensures
        r == is_white_space(c),
{
    let v = c as u32;
    (0x09 <= v && v <= 0x0D) || v == 0x20 || v == 0x85 || v == 0xA0 || v == 0x1680
        || (0x2000 <= v && v <= 0x200A) || v == 0x2028 || v == 0x2029 || v == 0x202F
        || v == 0x205F || v == 0x3000
}

/// The code of [`lower_code`].
fn lower(c: char) -> (r: u32)
    ensures
        r == lower_code(c),
{
    let v = c as u32;
    if 0x41 <= v && v <= 0x5A { v + 32 } else { v }
}

/// The bounds of `v[lo..hi]` with white space taken off both ends.
fn trim_range(v: &Vec<char>, lo: usize, hi: usize) -> (r: (usize, usize))
    requires
        lo <= hi <= v.len(),
    ensures
        lo <= r.0 <= r.1 <= hi,
        v@.subrange(r.0 as int, r.1 as int) == trim_ws(v@.subrange(lo as int, hi as int)),
{
    let mut a = lo;
    while a < hi && white_space(v[a])
        invariant
            lo <= a <= hi <= v.len(),
            trim_start_ws(v@.subrange(lo as int, hi as int)) == trim_start_ws(v@.subrange(a as int, hi as int)),
        decreases hi - a,
    {
        assert(v@.subrange(a + 1, hi as int) =~= v@.subrange(a as int, hi as int).drop_first());
        a = a + 1;
    }
    assert(trim_start_ws(v@.subrange(a as int, hi as int)) == v@.subrange(a as int, hi as int));
    let mut b = hi;
    while b > a && white_space(v[b - 1])
        invariant
            lo <= a <= b <= hi <= v.len(),
            trim_end_ws(v@.subrange(a as int, hi as int)) == trim_end_ws(v@.subrange(a as int, b as int)),
        decreases b - a,
    {
        assert(v@.subrange(a as int, b - 1) =~= v@.subrange(a as int, b as int).drop_last());
        b = b - 1;
    }
    assert(trim_end_ws(v@.subrange(a as int, b as int)) == v@.subrange(a as int, b as int));
    (a, b)
}

/// Whether `v[lo..hi]` equals `w` but for the case of ASCII letters.
fn same_ignoring_case(v: &Vec<char>, lo: usize, hi: usize, w: &Vec<char>) -> (r: bool)
    requires
        lo <= hi <= v.len(),
    ensures
        r == eq_ignore_case(v@.subrange(lo as int, hi as int), w@),
{
    if hi - lo != w.len() {
        return false;
    }
    let mut i: usize = 0;
    while i < w.len()
        invariant
            lo <= hi <= v.len(),
            hi - lo == w.len(),
            i <= w.len(),
            forall|k: int| 0 <= k < i ==> lower_code(#[trigger] v@[lo + k]) == lower_code(w@[k]),
        decreases w.len() - i,
    {
        if lower(v[lo + i]) != lower(w[i]) {
            assert(v@.subrange(lo as int, hi as int)[i as int] == v@[lo + i]);
            return false;
        }
        i = i + 1;
    }
    assert forall|k: int| 0 <= k < hi - lo implies #[trigger] lower_code(v@.subrange(lo as int, hi as int)[k])
        == lower_code(w@[k]) by {
        assert(v@.subrange(lo as int, hi as int)[k] == v@[lo + k]);
    }
    true
}

/// The level that `v[lo..hi]` names, if any.
fn parse_range(v: &Vec<char>, lo: usize, hi: usize) -> (r: Option<LogLevel>)
    requires
        lo <= hi <= v.len(),
    ensures
        r matches Some(l) ==> parses_as(v@.subrange(lo as int, hi as int), l),
        r is None ==> forall|l: LogLevel| !parses_as(v@.subrange(lo as int, hi as int), l),
{
    let (a, b) = trim_range(v, lo, hi);
    let all = LogLevel::all_levels();
    let mut i: usize = 0;
    while i < all.len()
        invariant
            all@ == all_level_seq(),
            lo <= a <= b <= hi <= v.len(),
            v@.subrange(a as int, b as int) == trim_ws(v@.subrange(lo as int, hi as int)),
            i <= all.len(),
            forall|k: int| 0 <= k < i ==> !parses_as(v@.subrange(lo as int, hi as int), #[trigger] all@[k]),
        decreases all.len() - i,
    {
        let level = all[i];
        let name = chars_of(level.name());
        if same_ignoring_case(v, a, b, &name) {
            return Some(level);
        }
        i = i + 1;
    }
    assert forall|l: LogLevel| !parses_as(v@.subrange(lo as int, hi as int), l) by {
        lemma_all_levels_listed(l);
    }
    None
}

/// Every level is listed in [`all_level_seq`].
pub proof fn lemma_all_levels_listed(l: LogLevel)
    ensures
        exists|k: int| 0 <= k < 9 && #[trigger] all_level_seq()[k] == l,
{
    match l {
        LogLevel::Trace => assert(all_level_seq()[0] == l),
        LogLevel::Debug => assert(all_level_seq()[1] == l),
        LogLevel::Info => assert(all_level_seq()[2] == l),
        LogLevel::Warn => assert(all_level_seq()[3] == l),
        LogLevel::Error => assert(all_level_seq()[4] == l),
        LogLevel::Off => assert(all_level_seq()[5] == l),
        LogLevel::Audit => assert(all_level_seq()[6] == l),
        LogLevel::Open => assert(all_level_seq()[7] == l),
        LogLevel::Close => assert(all_level_seq()[8] == l),
    }
}

impl LogLevel {
    /// The level that `s` names, in any mix of case, with white space
    /// around it ignored.
    pub fn from_str(s: &str) -> (r: Result<LogLevel, LogLevelError>)
        ensures
            r matches Ok(l) ==> parses_as(s@, l),
            r is Err ==> forall|l: LogLevel| !parses_as(s@, l),
            r is Err ==> r == Err::<LogLevel, LogLevelError>(LogLevelError),
    {
        let v = chars_of(s);
        assert(v@.subrange(0, v@.len() as int) =~= s@);
        match parse_range(&v, 0, v.len()) {
            Some(l) => Ok(l),
            None => Err(LogLevelError),
        }
    }
}

/// At most one level parses from a string: no two names are equal but
/// for case.
pub proof fn lemma_parse_unique(s: Seq<char>, l1: LogLevel, l2: LogLevel)
    requires
        parses_as(s, l1),
        parses_as(s, l2),
    ensures
        l1 == l2,
{
    let t = trim_ws(s);
    assert(lower_code(t[0]) == lower_code(level_name(l1)[0]));
    assert(lower_code(t[0]) == lower_code(level_name(l2)[0]));
}

/// A level's own name parses as that level.
pub proof fn lemma_name_parses(l: LogLevel)
    ensures
        parses_as(level_name(l), l),
{
    let n = level_name(l);
    assert(trim_start_ws(n) == n);
    assert(trim_end_ws(n) == n);
}

/// Leading characters that white space trimming takes off leave the rest.
proof fn lemma_trim_start_prefix(p: Seq<char>, n: Seq<char>)
    requires
        forall|i: int| 0 <= i < p.len() ==> is_white_space(#[trigger] p[i]),
        n.len() > 0,
        !is_white_space(n[0]),
    ensures
        trim_start_ws(p + n) == n,
    decreases p.len(),
{
    if p.len() == 0 {
        assert(p + n =~= n);
    } else {
        assert((p + n)[0] == p[0]);
        assert((p + n).drop_first() =~= p.drop_first() + n);
        lemma_trim_start_prefix(p.drop_first(), n);
    }
}

/// Trailing characters that white space trimming takes off leave the rest.
proof fn lemma_trim_end_suffix(n: Seq<char>, q: Seq<char>)
    requires
        forall|i: int| 0 <= i < q.len() ==> is_white_space(#[trigger] q[i]),
        n.len() > 0,
        !is_white_space(n.last()),
    ensures
        trim_end_ws(n + q) == n,
    decreases q.len(),
{
    if q.len() == 0 {
        assert(n + q =~= n);
    } else {
        assert((n + q).last() == q.last());
        assert((n + q).drop_last() =~= n + q.drop_last());
        lemma_trim_end_suffix(n, q.drop_last());
    }
}

/// White space around a level's name is ignored: a name with any of the
/// characters that have the Unicode `White_Space` property (tab, line
/// feed, vertical tab, form feed, carriage return, space, next line,
/// no-break space, ogham space mark, the spaces U+2000 to U+200A, line
/// and paragraph separators, narrow no-break space, medium mathematical
/// space and ideographic space) before or after it parses as that level.
pub proof fn lemma_white_space_around_name(p: Seq<char>, l: LogLevel, q: Seq<char>)
    requires
        forall|i: int| 0 <= i < (p + q).len() ==> {
            let v = #[trigger] (p + q)[i] as u32;
            ||| 0x09 <= v <= 0x0D
            ||| v == 0x20
            ||| v == 0x85
            ||| v == 0xA0
            ||| v == 0x1680
            ||| 0x2000 <= v <= 0x200A
            ||| v == 0x2028
            ||| v == 0x2029
            ||| v == 0x202F
            ||| v == 0x205F
            ||| v == 0x3000
        },
    ensures
        parses_as(p + level_name(l) + q, l),
{
    let n = level_name(l);
    assert forall|i: int| 0 <= i < p.len() implies is_white_space(#[trigger] p[i]) by {
        assert((p + q)[i] == p[i]);
    }
    assert forall|i: int| 0 <= i < q.len() implies is_white_space(#[trigger] q[i]) by {
        assert((p + q)[i + p.len()] == q[i]);
    }
    assert(!is_white_space(n[0]) && !is_white_space(n.last()));
    assert(p + n + q =~= p + (n + q));
    assert((n + q)[0] == n[0]);
    lemma_trim_start_prefix(p, n + q);
    lemma_trim_end_suffix(n, q);
    lemma_name_parses(l);
}

/// A character without the Unicode `White_Space` property is never
/// trimmed: after or before a level's name, it makes a string that names
/// no level.
pub proof fn lemma_other_char_kept(c: char, l: LogLevel, m: LogLevel)
    requires
        ({
            let v = c as u32;
            !(0x09 <= v <= 0x0D || v == 0x20 || v == 0x85 || v == 0xA0 || v == 0x1680
                || 0x2000 <= v <= 0x200A || v == 0x2028 || v == 0x2029 || v == 0x202F
                || v == 0x205F || v == 0x3000)
        }),
    ensures
        !parses_as(level_name(l) + seq![c], m),
        !parses_as(seq![c] + level_name(l), m),
{
    let n = level_name(l);
    let e: Seq<char> = Seq::empty();
    assert(!is_white_space(c));
    assert(!is_white_space(n[0]) && !is_white_space(n.last()));
    let a = n + seq![c];
    let b = seq![c] + n;
    assert(a[0] == n[0] && a.last() == c);
    assert(b[0] == c && b.last() == n.last());
    lemma_trim_start_prefix(e, a);
    assert(e + a =~= a);
    lemma_trim_end_suffix(a, e);
    assert(a + e =~= a);
    lemma_trim_start_prefix(e, b);
    assert(e + b =~= b);
    lemma_trim_end_suffix(b, e);
    assert(b + e =~= b);
    assert(trim_ws(a) == a);
    assert(trim_ws(b) == b);
    let nm = level_name(m);
    if eq_ignore_case(a, nm) {
        assert(lower_code(a[0]) == lower_code(nm[0]));
        assert(lower_code(a[1]) == lower_code(nm[1]));
        assert(lower_code(a[2]) == lower_code(nm[2]));
    }
    if eq_ignore_case(b, nm) {
        assert(lower_code(b[1]) == lower_code(nm[1]));
        assert(lower_code(b[2]) == lower_code(nm[2]));
        assert(lower_code(b[3]) == lower_code(nm[3]));
    }
}

/// The severity levels: Trace to Error.
pub open spec fn is_severity(l: LogLevel) -> bool {
    level_bit(l) < 5
}

/// The levels that a filter made from `l` enables: a severity level
/// enables itself and every more severe one; Off enables none; Audit
/// enables only itself; Open and Close enable each other.
pub open spec fn level_filter(l: LogLevel) -> Set<LogLevel> {
    match l {
        LogLevel::Audit => set![LogLevel::Audit],
        LogLevel::Open | LogLevel::Close => set![LogLevel::Open, LogLevel::Close],
        _ => Set::new(|m: LogLevel| is_severity(m) && level_bit(l) <= level_bit(m)),
    }
}

/// A set of enabled logging levels.
#[derive(Debug, Copy, Clone, PartialEq, Eq, Structural)]
pub struct LogFilter(u32);

impl LogFilter {
    #[verifier::type_invariant]
    spec fn inv(self) -> bool {
        self.0 < 512
    }

    /// The bits of the filter, one per level as [`level_bit`] numbers them.
    pub closed spec fn spec_bits(&self) -> u32 {
        self.0
    }
}

impl View for LogFilter {
    type V = Set<LogLevel>;

    /// The levels enabled.
    closed spec fn view(&self) -> Set<LogLevel> {
        Set::new(|l: LogLevel| self.0 & (1u32 << level_bit(l)) != 0)
    }
}

/// The bits for the filter of one level, as [`LogFilter::from_level`]
/// computes them.
spec fn filter_bits(l: LogLevel) -> u32 {
    match l {
        LogLevel::Audit => 1u32 << 5u32,
        LogLevel::Open | LogLevel::Close => (1u32 << 6u32) | (1u32 << 7u32),
        _ => 0x1Fu32 & (0x1Fu32 << level_bit(l)),
    }
}

impl LogFilter {
    /// A filter with no level enabled.
    pub fn new() -> (r: Self)
        ensures
            r@ == Set::<LogLevel>::empty(),
    {
        let r = LogFilter(0);
        assert forall|l: LogLevel| !r@.contains(l) by {
            let b = level_bit(l);
            assert(0u32 & (1u32 << b) == 0) by (bit_vector);
        }
        assert(r@ =~= Set::<LogLevel>::empty());
        r
    }

    /// The filter of one level, by the rules of [`level_filter`].
    pub fn from_level(level: LogLevel) -> (r: Self)
        ensures
            r@ == level_filter(level),
            r == LogFilter::spec_from(level),
    {
        let b = level.bit();
        let bits: u32 = match level {
            LogLevel::Audit => 1u32 << 5u32,
            LogLevel::Open | LogLevel::Close => (1u32 << 6u32) | (1u32 << 7u32),
            _ => 0x1Fu32 & (0x1Fu32 << b),
        };
        proof {
            lemma_filter_bits(level);
        }
        LogFilter(bits)
    }

    /// The filter of one level.
    pub closed spec fn spec_from(level: LogLevel) -> LogFilter {
        LogFilter(filter_bits(level))
    }

    /// The union of two filters.
    pub closed spec fn spec_union(self, other: LogFilter) -> LogFilter {
        LogFilter(self.0 | other.0)
    }

    /// The union of two filters.
    pub fn union(self, other: Self) -> (r: Self)
        ensures
            r@ == self@.union(other@),
            r == self.spec_union(other),
    {
        proof {
            use_type_invariant(&self);
            use_type_invariant(&other);
        }
        let a = self.0;
        let c = other.0;
        assert(a | c < 512) by (bit_vector)
            requires a < 512, c < 512;
        proof {
            lemma_union_view(self, other);
        }
        LogFilter(a | c)
    }

    /// The filter that enables each of `levels` as [`LogFilter::from_level`]
    /// converts it.
    pub fn all(levels: &[LogLevel]) -> (r: Self)
        ensures
            forall|m: LogLevel| #[trigger] r@.contains(m) <==>
                exists|k: int| 0 <= k < levels@.len() && #[trigger] level_filter(levels@[k]).contains(m),
    {
        let mut rv = Self::new();
        let mut i: usize = 0;
        while i < levels.len()
            invariant
                i <= levels@.len(),
                forall|m: LogLevel| #[trigger] rv@.contains(m) <==>
                    exists|k: int| 0 <= k < i && #[trigger] level_filter(levels@[k]).contains(m),
            decreases levels@.len() - i,
        {
            let f = Self::from_level(levels[i]);
            let ghost before = rv@;
            rv = rv.union(f);
            proof {
                assert forall|m: LogLevel| #[trigger] rv@.contains(m) <==>
                    exists|k: int| 0 <= k < i + 1 && #[trigger] level_filter(levels@[k]).contains(m) by {
                    if level_filter(levels@[i as int]).contains(m) {
                        assert(0 <= i < i + 1);
                    }
                    if exists|k: int| 0 <= k < i + 1 && #[trigger] level_filter(levels@[k]).contains(m) {
                        let k = choose|k: int| 0 <= k < i + 1 && #[trigger] level_filter(levels@[k]).contains(m);
                        if k < i {
                            assert(before.contains(m));
                        }
                    }
                }
            }
            i = i + 1;
        }
        rv
    }

    /// Whether `level` is enabled.
    pub fn allows(&self, level: LogLevel) -> (r: bool)
        ensures
            r == self@.contains(level),
    {
        0 != (self.0 & (1u32 << level.bit()))
    }

    /// Whether no level is enabled.
    pub fn is_empty(&self) -> (r: bool)
        ensures
            r == (self@ == Set::<LogLevel>::empty()),
    {
        proof {
            use_type_invariant(self);
        }
        let a = self.0;
        if a == 0 {
            assert forall|l: LogLevel| !self@.contains(l) by {
                let k = level_bit(l);
                assert(0u32 & (1u32 << k) == 0) by (bit_vector);
            }
            assert(self@ =~= Set::<LogLevel>::empty());
            true
        } else {
            let ghost k: u32 = choose|k: u32| k <= 8 && a & (1u32 << k) != 0;
            assert(exists|k: u32| k <= 8 && a & (1u32 << k) != 0) by {
                assert(a != 0 && a < 512 ==> (a & 1u32 != 0 || a & (1u32 << 1u32) != 0 || a & (1u32 << 2u32) != 0
                    || a & (1u32 << 3u32) != 0 || a & (1u32 << 4u32) != 0 || a & (1u32 << 5u32) != 0
                    || a & (1u32 << 6u32) != 0 || a & (1u32 << 7u32) != 0 || a & (1u32 << 8u32) != 0)) by (bit_vector);
                assert(1u32 == 1u32 << 0u32) by (bit_vector);
            }
            let ghost l = level_of_bit(k);
            assert(self@.contains(l));
            false
        }
    }
}

/// The filter of one level enables what [`level_filter`] says.
pub proof fn lemma_from_view(level: LogLevel)
    ensures
        LogFilter::spec_from(level)@ == level_filter(level),
{
    lemma_filter_bits(level);
}

/// The union of two filters enables what either does.
pub proof fn lemma_union_view(a: LogFilter, b: LogFilter)
    ensures
        a.spec_union(b)@ == a@.union(b@),
{
    let x = a.0;
    let c = b.0;
    let r = a.spec_union(b);
    assert forall|m: LogLevel| #[trigger] r@.contains(m) <==> a@.union(b@).contains(m) by {
        let k = level_bit(m);
        assert((x | c) & (1u32 << k) != 0 <==> (x & (1u32 << k) != 0 || c & (1u32 << k) != 0)) by (bit_vector)
            requires k <= 8;
    }
    assert(r@ =~= a@.union(b@));
}

proof fn lemma_filter_bits(level: LogLevel)
    ensures
        filter_bits(level) < 512,
        LogFilter(filter_bits(level))@ == level_filter(level),
{
    let b = level_bit(level);
    let bits = filter_bits(level);
    assert(b <= 8);
    assert(bits < 512) by (bit_vector)
        requires
            bits == 1u32 << 5u32 || bits == (1u32 << 6u32) | (1u32 << 7u32) || bits == 0x1Fu32 & (0x1Fu32 << b),
            b <= 8;
    let r = LogFilter(bits);
    assert forall|m: LogLevel| #[trigger] r@.contains(m) <==> level_filter(level).contains(m) by {
        let k = level_bit(m);
        assert(k <= 8);
        match level {
            LogLevel::Audit => {
                assert((1u32 << 5u32) & (1u32 << k) != 0 <==> k == 5) by (bit_vector)
                    requires k <= 8;
            },
            LogLevel::Open | LogLevel::Close => {
                assert(((1u32 << 6u32) | (1u32 << 7u32)) & (1u32 << k) != 0 <==> (k == 6 || k == 7)) by (bit_vector)
                    requires k <= 8;
            },
            _ => {
                assert((0x1Fu32 & (0x1Fu32 << b)) & (1u32 << k) != 0 <==> (k < 5 && b <= k)) by (bit_vector)
                    requires k <= 8, b <= 8;
            },
        }
    }
    assert(r@ =~= level_filter(level));
}

/// The level whose bit in a filter is `k`.
pub open spec fn level_of_bit(k: u32) -> LogLevel {
    if k == 0 { LogLevel::Trace }
    else if k == 1 { LogLevel::Debug }
    else if k == 2 { LogLevel::Info }
    else if k == 3 { LogLevel::Warn }
    else if k == 4 { LogLevel::Error }
    else if k == 5 { LogLevel::Audit }
    else if k == 6 { LogLevel::Open }
    else if k == 7 { LogLevel::Close }
    else { LogLevel::Off }
}

/// The names of the levels of `levels` that `set` holds, in order,
/// separated by commas.
pub open spec fn names_joined(levels: Seq<LogLevel>, set: Set<LogLevel>) -> Seq<char>
    decreases levels.len(),
{
    if levels.len() == 0 {
        Seq::empty()
    } else {
        let prev = names_joined(levels.drop_last(), set);
        let l = levels.last();
        if !set.contains(l) {
            prev
        } else if prev.len() == 0 {
            level_name(l)
        } else {
            prev + seq![','] + level_name(l)
        }
    }
}

/// How a filter is written: `LogFilter(` then the names of the levels it
/// enables, in the order of [`all_level_seq`], separated by commas, then
/// `)`.
pub open spec fn filter_text(set: Set<LogLevel>) -> Seq<char> {
    seq!['L', 'o', 'g', 'F', 'i', 'l', 't', 'e', 'r', '('] + names_joined(all_level_seq(), set) + seq![')']
}

/// The pieces of `s` between commas, in order: one more than the commas.
pub open spec fn comma_parts(s: Seq<char>) -> Seq<Seq<char>>
    decreases s.len(),
{
    if s.len() == 0 {
        seq![Seq::<char>::empty()]
    } else {
        let p = comma_parts(s.drop_last());
        if s.last() == ',' {
            p.push(Seq::empty())
        } else {
            p.update(p.len() - 1, p.last().push(s.last()))
        }
    }
}

/// Every level of `set` is enabled by the filter of some level that a
/// piece of `parts` names.
pub open spec fn filter_of_parts(parts: Seq<Seq<char>>, set: Set<LogLevel>) -> bool {
    forall|m: LogLevel| #[trigger] set.contains(m) <==> exists|k: int, l: LogLevel| #[trigger] enabled_by(parts, k, l, m)
}

/// Piece `k` of `parts` names a level.
pub open spec fn piece_parses(parts: Seq<Seq<char>>, k: int) -> bool {
    exists|l: LogLevel| #[trigger] parses_as(parts[k], l)
}

/// Every piece of `parts` names a level.
pub open spec fn all_pieces_parse(parts: Seq<Seq<char>>) -> bool {
    forall|k: int| 0 <= k < parts.len() ==> #[trigger] piece_parses(parts, k)
}

/// Every piece names a level just when every piece but the last does
/// and the last does too.
proof fn lemma_all_pieces_split(p: Seq<Seq<char>>)
    requires
        p.len() >= 1,
    ensures
        all_pieces_parse(p) <==> (all_pieces_parse(p.drop_last()) && piece_parses(p, p.len() - 1)),
{
    if all_pieces_parse(p.drop_last()) && piece_parses(p, p.len() - 1) {
        assert forall|k: int| 0 <= k < p.len() implies #[trigger] piece_parses(p, k) by {
            if k < p.len() - 1 {
                assert(piece_parses(p.drop_last(), k));
                assert(p.drop_last()[k] == p[k]);
            }
        }
    }
    if all_pieces_parse(p) {
        assert forall|k: int| 0 <= k < p.len() - 1 implies #[trigger] piece_parses(p.drop_last(), k) by {
            assert(piece_parses(p, k));
            assert(p.drop_last()[k] == p[k]);
        }
        assert(piece_parses(p, p.len() - 1));
    }
}

/// Piece `k` of `parts` names `l`, whose filter enables `m`.
pub open spec fn enabled_by(parts: Seq<Seq<char>>, k: int, l: LogLevel, m: LogLevel) -> bool {
    0 <= k < parts.len() && parses_as(parts[k], l) && level_filter(l).contains(m)
}

impl LogFilter {
    /// How the filter is written, as [`filter_text`] gives it.
    pub fn to_string(&self) -> (r: String)
        ensures
            r@ == filter_text(self@),
    {
        proof {
            reveal_strlit("LogFilter(");
            reveal_strlit(",");
            reveal_strlit(")");
        }
        let mut out = String::from_str("LogFilter(");
        let ghost head = out@;
        assert(head =~= seq!['L', 'o', 'g', 'F', 'i', 'l', 't', 'e', 'r', '(']);
        let all = LogLevel::all_levels();
        let mut first = true;
        let mut i: usize = 0;
        while i < all.len()
            invariant
                all@ == all_level_seq(),
                i <= all@.len(),
                head == seq!['L', 'o', 'g', 'F', 'i', 'l', 't', 'e', 'r', '('],
                out@ == head + names_joined(all@.take(i as int), self@),
                first == (names_joined(all@.take(i as int), self@).len() == 0),
            decreases all@.len() - i,
        {
            let level = all[i];
            let ghost prev = names_joined(all@.take(i as int), self@);
            assert(all@.take(i + 1).drop_last() =~= all@.take(i as int));
            assert(all@.take(i + 1).last() == level);
            let ghost before = out@;
            if self.allows(level) {
                if !first {
                    out.append(",");
                    proof {
                        reveal_strlit(",");
                    }
                    assert(","@ =~= seq![',']);
                }
                out.append(level.name());
                proof {
                    assert(level_name(level).len() > 0);
                    if first {
                        assert(out@ =~= before + level_name(level));
                    } else {
                        assert(out@ =~= before + seq![','] + level_name(level));
                    }
                }
            }
            assert(out@ =~= head + names_joined(all@.take(i + 1), self@));
            if self.allows(level) {
                first = false;
            }
            i = i + 1;
        }
        out.append(")");
        assert(all@.take(9) =~= all_level_seq());
        assert(out@ =~= filter_text(self@));
        out
    }

    /// The filter that a comma-separated list of level names gives, each
    /// converted as [`LogFilter::from_level`] converts it; an error if a
    /// piece names no level.
    pub fn from_str(s: &str) -> (r: Result<LogFilter, LogLevelError>)
        ensures
            r is Ok <==> all_pieces_parse(comma_parts(s@)),
            r matches Ok(f) ==> filter_of_parts(comma_parts(s@), f@),
            r is Err ==> r == Err::<LogFilter, LogLevelError>(LogLevelError),
    {
        let v = chars_of(s);
        let mut rv = LogFilter::new();
        let mut ok = true;
        let mut start: usize = 0;
        let mut i: usize = 0;
        assert(comma_parts(v@.take(0)) =~= seq![Seq::<char>::empty()]);
        while i < v.len()
            invariant
                i <= v@.len(),
                start <= i,
                comma_parts(v@.take(i as int)).len() >= 1,
                comma_parts(v@.take(i as int)).last() == v@.subrange(start as int, i as int),
                ok <==> all_pieces_parse(comma_parts(v@.take(i as int)).drop_last()),
                ok ==> filter_of_parts(comma_parts(v@.take(i as int)).drop_last(), rv@),
            decreases v@.len() - i,
        {
            let ghost p = comma_parts(v@.take(i as int));
            assert(v@.take(i + 1).drop_last() =~= v@.take(i as int));
            assert(v@.take(i + 1).last() == v@[i as int]);
            if v[i] == ',' {
                let parsed = parse_range(&v, start, i);
                let ghost p2 = comma_parts(v@.take(i + 1));
                assert(p2 == p.push(Seq::empty()));
                assert(p2.drop_last() =~= p);
                proof {
                    lemma_all_pieces_split(p);
                    assert(p[p.len() - 1] == v@.subrange(start as int, i as int));
                }
                match parsed {
                    Some(l) => {
                        if ok {
                            let ghost before = rv@;
                            rv = rv.union(LogFilter::from_level(l));
                            proof {
                                assert forall|m: LogLevel| #[trigger] rv@.contains(m) <==>
                                    exists|k: int, l2: LogLevel| #[trigger] enabled_by(p, k, l2, m) by {
                                    if rv@.contains(m) && !before.contains(m) {
                                        assert(enabled_by(p, p.len() - 1, l, m));
                                    }
                                    if before.contains(m) {
                                        let (k, l2) = choose|k: int, l2: LogLevel| #[trigger] enabled_by(p.drop_last(), k, l2, m);
                                        assert(p.drop_last()[k] == p[k]);
                                        assert(enabled_by(p, k, l2, m));
                                    }
                                    if exists|k: int, l2: LogLevel| #[trigger] enabled_by(p, k, l2, m) {
                                        let (k, l2) = choose|k: int, l2: LogLevel| #[trigger] enabled_by(p, k, l2, m);
                                        if k == p.len() - 1 {
                                            lemma_parse_unique(p[k], l, l2);
                                        } else {
                                            assert(p.drop_last()[k] == p[k]);
                                            assert(enabled_by(p.drop_last(), k, l2, m));
                                        }
                                    }
                                }
                            }
                        }
                        proof {
                            assert(parses_as(p2[p.len() - 1], l));
                        }
                    },
                    None => {
                        ok = false;
                        proof {
                            assert(!(exists|l2: LogLevel| #[trigger] parses_as(p2[p.len() - 1], l2)));
                        }
                    },
                }
                start = i + 1;
                proof {
                    assert(v@.subrange(start as int, i + 1) =~= Seq::<char>::empty());
                }
            } else {
                proof {
                    let p2 = comma_parts(v@.take(i + 1));
                    assert(p2 == p.update(p.len() - 1, p.last().push(v@[i as int])));
                    assert(p2.last() =~= v@.subrange(start as int, i + 1));
                    assert(p2.drop_last() =~= p.drop_last());
                    assert forall|k: int| 0 <= k < p2.len() - 1 implies p2[k] == p[k] by {}
                }
            }
            i = i + 1;
        }
        assert(v@.take(v@.len() as int) =~= s@);
        let ghost p = comma_parts(s@);
        proof {
            lemma_all_pieces_split(p);
        }
        match parse_range(&v, start, v.len()) {
            Some(l) => {
                if ok {
                    let ghost before = rv@;
                    rv = rv.union(LogFilter::from_level(l));
                    proof {
                        assert forall|m: LogLevel| #[trigger] rv@.contains(m) <==>
                            exists|k: int, l2: LogLevel| #[trigger] enabled_by(p, k, l2, m) by {
                            if rv@.contains(m) && !before.contains(m) {
                                assert(enabled_by(p, p.len() - 1, l, m));
                            }
                            if before.contains(m) {
                                let (k, l2) = choose|k: int, l2: LogLevel| #[trigger] enabled_by(p.drop_last(), k, l2, m);
                                assert(p.drop_last()[k] == p[k]);
                                assert(enabled_by(p, k, l2, m));
                            }
                            if exists|k: int, l2: LogLevel| #[trigger] enabled_by(p, k, l2, m) {
                                let (k, l2) = choose|k: int, l2: LogLevel| #[trigger] enabled_by(p, k, l2, m);
                                if k == p.len() - 1 {
                                    lemma_parse_unique(p[k], l, l2);
                                } else {
                                    assert(p.drop_last()[k] == p[k]);
                                    assert(enabled_by(p.drop_last(), k, l2, m));
                                }
                            }
                        }
                        assert(parses_as(p[p.len() - 1], l));
                    }
                    Ok(rv)
                } else {
                    Err(LogLevelError)
                }
            },
            None => {
                proof {
                    assert(!(exists|l2: LogLevel| #[trigger] parses_as(p[p.len() - 1], l2)));
                }
                Err(LogLevelError)
            },
        }
    }
}

impl Default for LogFilter {
    /// A filter with no level enabled.
    fn default() -> (r: Self)
        ensures
            r@ == Set::<LogLevel>::empty(),
    {
        LogFilter::new()
    }
}

impl From<LogLevel> for LogFilter {
    /// The filter of one level, by the rules of [`level_filter`].
    fn from(level: LogLevel) -> (r: Self) {
        LogFilter::from_level(level)
    }
}

impl vstd::std_specs::convert::FromSpecImpl<LogLevel> for LogFilter {
    open spec fn obeys_from_spec() -> bool {
        true
    }

    open spec fn from_spec(v: LogLevel) -> LogFilter {
        LogFilter::spec_from(v)
    }
}

impl core::ops::BitOr for LogFilter {
    type Output = Self;

    /// The union of two filters.
    fn bitor(self, rhs: Self) -> (r: Self) {
        self.union(rhs)
    }
}

impl vstd::std_specs::ops::BitOrSpecImpl for LogFilter {
    open spec fn obeys_bitor_spec() -> bool {
        true
    }

    open spec fn bitor_req(self, rhs: LogFilter) -> bool {
        true
    }

    open spec fn bitor_spec(self, rhs: LogFilter) -> LogFilter {
        self.spec_union(rhs)
    }
}

impl core::ops::BitOrAssign for LogFilter {
    /// Enable the levels of `rhs` too.
    fn bitor_assign(&mut self, rhs: Self)
        ensures
            final(self)@ == old(self)@.union(rhs@),
            *final(self) == old(self).spec_union(rhs),
    {
        *self = self.union(rhs);
    }
}

impl core::str::FromStr for LogLevel {
    type Err = LogLevelError;

    fn from_str(s: &str) -> (r: Result<LogLevel, LogLevelError>)
        ensures
            r matches Ok(l) ==> parses_as(s@, l),
            r is Err ==> forall|l: LogLevel| !parses_as(s@, l),
            r is Err ==> r == Err::<LogLevel, LogLevelError>(LogLevelError),
    {
        LogLevel::from_str(s)
    }
}

impl core::str::FromStr for LogFilter {
    type Err = LogLevelError;

    fn from_str(s: &str) -> (r: Result<LogFilter, LogLevelError>)
        ensures
            r is Ok <==> all_pieces_parse(comma_parts(s@)),
            r matches Ok(f) ==> filter_of_parts(comma_parts(s@), f@),
            r is Err ==> r == Err::<LogFilter, LogLevelError>(LogLevelError),
    {
        LogFilter::from_str(s)
    }
}

} // verus!
