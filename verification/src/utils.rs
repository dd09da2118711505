//! Helpers of the command-line tool: which file events matter, and the
//! custom exit codes given as `case:code` pairs.
use vstd::prelude::*;
use crate::filesystem::is_supported_extension;
use crate::paths::{extension, std_extension};
use crate::text::{split_char, split_on, str_eq};
use crate::types::strs_view;

verus! {

/// Whether a changed path is a source file the analysis reads: its
/// extension is one of `js jsx ts tsx mjs json vue`.
pub fn is_relevant_file_change(path: &str) -> (b: bool)
    ensures
        b == (std_extension(path@) matches Some(e) && is_supported_extension(e)),
{
    crate::filesystem::is_supported_file_type(path)
}

/// The kind of a file-system event.
#[derive(Clone, Copy, Debug, PartialEq, Eq, Structural)]
pub enum FileEventKind {
    Create,
    Modify,
    Remove,
    Other,
}

/// The paths of an event whose kind is a creation, a change or a removal,
/// that are text (`None` stands for a path that is not) and name a source
/// file, in order.
pub open spec fn relevant_changes(kind: FileEventKind, paths: Seq<Option<Seq<char>>>) -> Seq<Seq<char>> {
    if kind == FileEventKind::Other {
        Seq::empty()
    } else {
        paths.filter_map(|p: Option<Seq<char>>| match p {
            Some(s) => if std_extension(s) matches Some(e) && is_supported_extension(e) {
                Some(s)
            } else {
                None
            },
            None => None,
        })
    }
}

/// The changed source files an event reports (see [`relevant_changes`]);
/// `_watched_files` is not consulted.
pub fn extract_relevant_file_changes(
    kind: FileEventKind,
    paths: &Vec<Option<String>>,
    _watched_files: &Vec<String>,
) -> (r: Vec<String>)
    ensures
        strs_view(r@) == relevant_changes(kind, crate::types::opt_strs_view(paths@)),
{
    let ghost pv = crate::types::opt_strs_view(paths@);
    let ghost f = |p: Option<Seq<char>>| match p {
        Some(s) => if std_extension(s) matches Some(e) && is_supported_extension(e) {
            Some(s)
        } else {
            None
        },
        None => None,
    };
    let mut r: Vec<String> = Vec::new();
    if kind == FileEventKind::Other {
        return r;
    }
    let mut i: usize = 0;
    while i < paths.len()
        invariant
            pv == crate::types::opt_strs_view(paths@),
            i <= paths@.len(),
            kind != FileEventKind::Other,
            strs_view(r@) == pv.subrange(0, i as int).filter_map(f),
            f == (|p: Option<Seq<char>>| match p {
                Some(s) => if std_extension(s) matches Some(e) && is_supported_extension(e) {
                    Some(s)
                } else {
                    None
                },
                None => None,
            }),
        decreases paths@.len() - i,
    {
        let ghost s0 = pv.subrange(0, i as int);
        let ghost s1 = pv.subrange(0, i + 1);
        proof {
            assert(s1.drop_last() =~= s0);
            assert(s1.last() == pv[i as int]);
            assert(pv[i as int] == crate::types::opt_str_view(paths@[i as int]));
        }
        match &paths[i] {
            Some(p) => {
                if is_relevant_file_change(p.as_str()) {
                    let ghost before = strs_view(r@);
                    r.push(p.clone());
                    proof {
                        assert(strs_view(r@) =~= before.push(p@));
                        assert(s1.filter_map(f) =~= s0.filter_map(f) + seq![p@]);
                    }
                } else {
                    assert(s1.filter_map(f) == s0.filter_map(f));
                }
            },
            None => {
                assert(s1.filter_map(f) == s0.filter_map(f));
            },
        }
        i = i + 1;
    }
    proof {
        assert(pv.subrange(0, i as int) =~= pv);
    }
    r
}

/// The character is an ASCII digit.
pub open spec fn is_digit(c: char) -> bool {
    48 <= (c as u32) <= 57
}

/// Every character is an ASCII digit.
pub open spec fn all_digits(ds: Seq<char>) -> bool {
    forall|i: int| 0 <= i < ds.len() ==> is_digit(#[trigger] ds[i])
}

/// The value of a string of decimal digits.
pub open spec fn digits_value(ds: Seq<char>) -> int
    decreases ds.len(),
{
    if ds.len() == 0 {
        0
    } else {
        10 * digits_value(ds.drop_last()) + ((ds.last() as u32) - 48)
    }
}

/// The `i32` that std's `str::parse::<i32>` reads from `s`: an optional `+`
/// or `-`, then one or more ASCII digits, the value in range; `None` for
/// anything else.
pub open spec fn parse_i32_spec(s: Seq<char>) -> Option<i32> {
    let neg = s.len() > 0 && s[0] == '-';
    let ds = if s.len() > 0 && (s[0] == '-' || s[0] == '+') { s.drop_first() } else { s };
    if ds.len() == 0 || !all_digits(ds) {
        None
    } else {
        let v = if neg { -digits_value(ds) } else { digits_value(ds) };
        if i32::MIN <= v <= i32::MAX {
            Some(v as i32)
        } else {
            None
        }
    }
}

proof fn lemma_digits_value_grows(ds: Seq<char>, i: int)
    requires
        0 <= i <= ds.len(),
        forall|k: int| 0 <= k < ds.len() ==> is_digit(#[trigger] ds[k]),
    ensures
        digits_value(ds) >= digits_value(ds.subrange(0, i)),
        digits_value(ds.subrange(0, i)) >= 0,
    decreases ds.len() - i,
{
    if i < ds.len() {
        lemma_digits_value_grows(ds, i + 1);
        let p = ds.subrange(0, i + 1);
        assert(p.drop_last() =~= ds.subrange(0, i));
        assert(p.last() == ds[i]);
        assert(is_digit(ds[i]));
    } else {
        assert(ds.subrange(0, i) =~= ds);
        lemma_digits_value_nonneg(ds);
    }
}

proof fn lemma_digits_value_nonneg(ds: Seq<char>)
    requires
        forall|k: int| 0 <= k < ds.len() ==> is_digit(#[trigger] ds[k]),
    ensures
        digits_value(ds) >= 0,
    decreases ds.len(),
{
    if ds.len() > 0 {
        let p = ds.drop_last();
        assert forall|k: int| 0 <= k < p.len() implies is_digit(#[trigger] p[k]) by {
            assert(p[k] == ds[k]);
        }
        lemma_digits_value_nonneg(p);
        assert(is_digit(ds[ds.len() - 1]));
    }
}

/// Reads an `i32` the way std's `str::parse::<i32>` does (see
/// [`parse_i32_spec`]).
pub fn parse_i32(s: &str) -> (r: Option<i32>)
    ensures
        r == parse_i32_spec(s@),
{
    let cs = crate::text::chars_of(s);
    let n = cs.len();
    let neg = n > 0 && cs[0] == '-';
    let start: usize = if n > 0 && (cs[0] == '-' || cs[0] == '+') { 1 } else { 0 };
    let ghost ds = if n > 0 && (cs@[0] == '-' || cs@[0] == '+') { cs@.drop_first() } else { cs@ };
    proof {
        assert(ds =~= cs@.subrange(start as int, n as int));
    }
    if start == n {
        return None;
    }
    let mut acc: i64 = 0;
    let mut i: usize = start;
    while i < n
        invariant
            start <= i <= n,
            n == cs@.len(),
            cs@ == s@,
            neg == (n > 0 && cs@[0] == '-'),
            ds == (if n > 0 && (cs@[0] == '-' || cs@[0] == '+') { cs@.drop_first() } else { cs@ }),
            ds == cs@.subrange(start as int, n as int),
            forall|k: int| 0 <= k < i - start ==> is_digit(#[trigger] ds[k]),
            acc == digits_value(ds.subrange(0, i - start)),
            0 <= acc <= 2147483648,
        decreases n - i,
    {
        let c = cs[i];
        proof {
            assert(ds[i - start] == c);
        }
        let cu = c as u32;
        if !(48 <= cu && cu <= 57) {
            proof {
                assert(cs@ == s@);
                assert(!is_digit(ds[i - start]));
                assert(!all_digits(ds));
                assert(parse_i32_spec(s@) is None);
            }
            return None;
        }
        let d = (cu - 48) as i64;
        let next = acc * 10 + d;
        proof {
            let p = ds.subrange(0, i - start + 1);
            assert(p.drop_last() =~= ds.subrange(0, i - start));
            assert(p.last() == c);
            assert(next == digits_value(p));
        }
        if next > 2147483648 {
            proof {
                let k = (i - start + 1) as int;
                assert(cs@ == s@);
                if all_digits(ds) {
                    lemma_digits_value_grows(ds, k);
                    assert(digits_value(ds) > 2147483648);
                }
            }
            return None;
        }
        acc = next;
        i = i + 1;
    }
    proof {
        assert(ds.subrange(0, n - start) =~= ds);
    }
    if neg {
        let v = -acc;
        if v < -2147483648 {
            return None;
        }
        Some(v as i32)
    } else {
        if acc > 2147483647 {
            return None;
        }
        Some(acc as i32)
    }
}

/// Why a custom exit-code list was refused: a part that is not one
/// `case:code` pair, a code that is not an `i32`, or a case other than
/// `circular`; each holds the offending text.
#[derive(Clone, Debug)]
pub enum ExitCodeError {
    InvalidFormat(String),
    InvalidNumber(String),
    UnknownCase(String),
}

impl ExitCodeError {
    /// The error's message.
    pub fn message(&self) -> (m: String)
        ensures
            m@ == match self {
                ExitCodeError::InvalidFormat(p) => "Invalid exit code format: "@ + p@,
                ExitCodeError::InvalidNumber(p) => "Invalid exit code number: "@ + p@,
                ExitCodeError::UnknownCase(p) => "Unknown exit code case: "@ + p@,
            },
    {
        let (head, tail) = match self {
            ExitCodeError::InvalidFormat(p) => ("Invalid exit code format: ", p),
            ExitCodeError::InvalidNumber(p) => ("Invalid exit code number: ", p),
            ExitCodeError::UnknownCase(p) => ("Unknown exit code case: ", p),
        };
        let mut cs = crate::text::chars_of(head);
        let ts = crate::text::chars_of(tail.as_str());
        crate::text::extend_chars(&mut cs, &ts);
        crate::text::string_from_chars(&cs)
    }
}

/// The result of one `case:code` part: the error it raises, or the code it
/// sets (`None`: it sets none).
pub open spec fn exit_code_part(part: Seq<char>, has_circulars: bool) -> Result<Option<i32>, ExitCodeError> {
    let fields = split_on(part, ':');
    if fields.len() != 2 {
        Err(ExitCodeError::InvalidFormat(arbitrary()))
    } else {
        match parse_i32_spec(fields[1]) {
            None => Err(ExitCodeError::InvalidNumber(arbitrary())),
            Some(code) => if fields[0] == "circular"@ {
                Ok(if has_circulars { Some(code) } else { None })
            } else {
                Err(ExitCodeError::UnknownCase(arbitrary()))
            },
        }
    }
}

/// The texts that the errors of [`exit_code_part`] hold.
pub open spec fn exit_code_error_text(e: ExitCodeError) -> Seq<char> {
    match e {
        ExitCodeError::InvalidFormat(p) => p@,
        ExitCodeError::InvalidNumber(p) => p@,
        ExitCodeError::UnknownCase(p) => p@,
    }
}

/// The same kind of error.
pub open spec fn same_error_kind(a: ExitCodeError, b: ExitCodeError) -> bool {
    match (a, b) {
        (ExitCodeError::InvalidFormat(_), ExitCodeError::InvalidFormat(_)) => true,
        (ExitCodeError::InvalidNumber(_), ExitCodeError::InvalidNumber(_)) => true,
        (ExitCodeError::UnknownCase(_), ExitCodeError::UnknownCase(_)) => true,
        _ => false,
    }
}

/// The exit code a list of parts sets, reading them in order: the last
/// code set, 0 when none is.
pub open spec fn exit_code_of(parts: Seq<Seq<char>>, has_circulars: bool) -> int
    decreases parts.len(),
{
    if parts.len() == 0 {
        0
    } else {
        match exit_code_part(parts.last(), has_circulars) {
            Ok(Some(c)) => c as int,
            _ => exit_code_of(parts.drop_last(), has_circulars),
        }
    }
}

/// The index of the first part that raises an error.
pub open spec fn first_bad_part(parts: Seq<Seq<char>>, has_circulars: bool, i: int) -> bool {
    0 <= i < parts.len() && exit_code_part(parts[i], has_circulars) is Err
        && forall|k: int| 0 <= k < i ==> exit_code_part(#[trigger] parts[k], has_circulars) is Ok
}

/// Reads a custom exit-code list (`case:code,case:code`) against the
/// circular dependencies found. The only case is `circular`, whose code
/// applies when some were found. Returns the code to exit with (0: exit
/// normally), or the error of the first part that is not a valid pair: not
/// exactly one `:`, a code that is not an `i32`, or an unknown case.
pub fn handle_exit_codes(spec: &str, circulars: &Vec<Vec<String>>) -> (r: Result<i32, ExitCodeError>)
    ensures
        ({
            let parts = split_on(spec@, ',');
            let hc = circulars@.len() > 0;
            match r {
                Ok(code) => (forall|k: int| 0 <= k < parts.len() ==> exit_code_part(#[trigger] parts[k], hc) is Ok)
                    && code as int == exit_code_of(parts, hc),
                Err(e) => exists|i: int| #[trigger] first_bad_part(parts, hc, i)
                    && same_error_kind(e, exit_code_part(parts[i], hc)->Err_0)
                    && exit_code_error_text(e) == match e {
                        ExitCodeError::InvalidFormat(_) => parts[i],
                        ExitCodeError::InvalidNumber(_) => split_on(parts[i], ':')[1],
                        ExitCodeError::UnknownCase(_) => split_on(parts[i], ':')[0],
                    },
            }
        }),
{
    let parts = split_char(spec, ',');
    let ghost pv = strs_view(parts@);
    let ghost hc = circulars@.len() > 0;
    let has_circulars = circulars.len() > 0;
    let mut exit_code: i32 = 0;
    let mut i: usize = 0;
    while i < parts.len()
        invariant
            pv == strs_view(parts@),
            pv == split_on(spec@, ','),
            hc == has_circulars,
            hc == (circulars@.len() > 0),
            i <= parts@.len(),
            forall|k: int| 0 <= k < i ==> exit_code_part(#[trigger] pv[k], hc) is Ok,
            exit_code as int == exit_code_of(pv.subrange(0, i as int), hc),
        decreases parts@.len() - i,
    {
        let part = &parts[i];
        assert(pv[i as int] == part@);
        let fields = split_char(part.as_str(), ':');
        let ghost fv = strs_view(fields@);
        if fields.len() != 2 {
            let t = part.clone();
            proof {
                assert(t@ == part@);
                assert(first_bad_part(pv, hc, i as int));
                assert(exit_code_part(pv[i as int], hc) == Err::<Option<i32>, ExitCodeError>(ExitCodeError::InvalidFormat(arbitrary())));
                let e = ExitCodeError::InvalidFormat(t);
                assert(same_error_kind(e, exit_code_part(pv[i as int], hc)->Err_0));
                assert(exit_code_error_text(e) == pv[i as int]);
            }
            return Err(ExitCodeError::InvalidFormat(t));
        }
        assert(fv[0] == fields@[0]@ && fv[1] == fields@[1]@);
        let code = match parse_i32(fields[1].as_str()) {
            Some(c) => c,
            None => {
                let t = fields[1].clone();
                proof {
                    assert(t@ == fv[1]);
                    assert(first_bad_part(pv, hc, i as int));
                    assert(exit_code_part(pv[i as int], hc) == Err::<Option<i32>, ExitCodeError>(ExitCodeError::InvalidNumber(arbitrary())));
                }
                return Err(ExitCodeError::InvalidNumber(t));
            },
        };
        if str_eq(fields[0].as_str(), "circular") {
            if has_circulars {
                exit_code = code;
            }
        } else {
            let t = fields[0].clone();
            proof {
                assert(t@ == fv[0]);
                assert(first_bad_part(pv, hc, i as int));
                assert(exit_code_part(pv[i as int], hc) == Err::<Option<i32>, ExitCodeError>(ExitCodeError::UnknownCase(arbitrary())));
            }
            return Err(ExitCodeError::UnknownCase(t));
        }
        proof {
            let s1 = pv.subrange(0, i + 1);
            assert(s1.drop_last() =~= pv.subrange(0, i as int));
            assert(s1.last() == pv[i as int]);
        }
        i = i + 1;
    }
    proof {
        assert(pv.subrange(0, i as int) =~= pv);
    }
    Ok(exit_code)
}

} // verus!
