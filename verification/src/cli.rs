//! Command-line arguments: the game version, the stat baselines and the paths.
use vstd::prelude::*;
use crate::layout::{GameVersion, STAT_COUNT, STAT_MAX};
use crate::text::{self, chars_of, parse_i32, split_bounds, starts_with, text_eq, trim_bounds};

verus! {

/// Why `--stat-baseline` was rejected.
#[derive(Debug)]
pub enum BaselineError {
    /// The value does not hold exactly four comma-separated parts.
    WrongCount { found: usize, value: String },
    /// A part (shown trimmed) is not an integer.
    NotAnInteger { text: String },
    /// A part is an integer outside the plausible stat range.
    OutOfRange { value: i32 },
}

/// A `BaselineError` in mathematical terms.
pub enum BaselineErrorView {
    WrongCount { found: nat, value: Seq<char> },
    NotAnInteger { text: Seq<char> },
    OutOfRange { value: i32 },
}

impl View for BaselineError {
    type V = BaselineErrorView;

    open spec fn view(&self) -> BaselineErrorView {
        match self {
            BaselineError::WrongCount { found, value } => BaselineErrorView::WrongCount { found: *found as nat, value: value@ },
            BaselineError::NotAnInteger { text } => BaselineErrorView::NotAnInteger { text: text@ },
            BaselineError::OutOfRange { value } => BaselineErrorView::OutOfRange { value: *value },
        }
    }
}

/// The integer written in a baseline part, surrounding white space ignored.
pub open spec fn part_value(p: Seq<char>) -> Option<i32> {
    text::parse_i32_spec(text::trim(p))
}

/// True when a baseline part holds a plausible stat value.
pub open spec fn part_ok(p: Seq<char>) -> bool {
    part_value(p) matches Some(x) && 0 <= x <= STAT_MAX
}

/// The first rejected part at or after `i`.
pub open spec fn first_bad_part(parts: Seq<Seq<char>>, i: int) -> Option<int>
    decreases STAT_COUNT - i,
{
    if i < 0 || i >= STAT_COUNT {
        None
    } else if !part_ok(parts[i]) {
        Some(i)
    } else {
        first_bad_part(parts, i + 1)
    }
}

/// The baselines written in `v`: four comma-separated integers in the order
/// strength, dexterity, vitality, magic, each a plausible stat value.
pub open spec fn baseline_spec(v: Seq<char>) -> Result<Seq<i32>, BaselineErrorView> {
    let parts = text::split_commas(v);
    if parts.len() != STAT_COUNT {
        Err(BaselineErrorView::WrongCount { found: parts.len(), value: v })
    } else {
        match first_bad_part(parts, 0) {
            Some(i) => match part_value(parts[i]) {
                None => Err(BaselineErrorView::NotAnInteger { text: text::trim(parts[i]) }),
                Some(x) => Err(BaselineErrorView::OutOfRange { value: x }),
            },
            None => Ok(Seq::new(STAT_COUNT as nat, |i: int| part_value(parts[i])->Some_0)),
        }
    }
}

/// Parses `--stat-baseline` as four comma-separated integers, in the order
/// strength, dexterity, vitality, magic.
pub fn parse_stat_baseline(value: &str) -> (res: Result<[i32; 4], BaselineError>)
    ensures
        match baseline_spec(value@) {
            Ok(b) => res matches Ok(a) && a@ == b,
            Err(e) => res matches Err(x) && x@ == e,
        },
{
    let chars = chars_of(value);
    let parts = split_bounds(&chars);
    if parts.len() != STAT_COUNT {
        return Err(BaselineError::WrongCount { found: parts.len(), value: value.to_owned() });
    }
    let ghost pv = text::split_commas(value@);
    let mut baselines: [i32; 4] = [0, 0, 0, 0];
    let mut i: usize = 0;
    while i < STAT_COUNT
        invariant
            chars@ == value@,
            pv == text::split_commas(value@),
            pv.len() == STAT_COUNT,
            parts@.len() == STAT_COUNT,
            forall|k: int| 0 <= k < parts@.len() ==> (#[trigger] parts@[k]).0 <= parts@[k].1 <= chars@.len()
                && chars@.subrange(parts@[k].0 as int, parts@[k].1 as int) == pv[k],
            i <= STAT_COUNT,
            first_bad_part(pv, 0) == first_bad_part(pv, i as int),
            forall|k: int| 0 <= k < i ==> part_value(pv[k]) == Some(#[trigger] baselines@[k]),
        decreases STAT_COUNT - i,
    {
        let (start, end) = parts[i];
        let (lo, hi) = trim_bounds(&chars, start, end);
        assert(chars@.subrange(lo as int, hi as int) == text::trim(pv[i as int]));
        match parse_i32(&chars, lo, hi) {
            None => {
                let text = value.substring_char(lo, hi).to_owned();
                assert(first_bad_part(pv, i as int) == Some(i as int));
                return Err(BaselineError::NotAnInteger { text });
            },
            Some(v) => {
                if v < 0 || v > STAT_MAX {
                    assert(first_bad_part(pv, i as int) == Some(i as int));
                    return Err(BaselineError::OutOfRange { value: v });
                }
                baselines[i] = v;
            },
        }
        i = i + 1;
    }
    assert(baselines@ =~= Seq::new(STAT_COUNT as nat, |k: int| part_value(pv[k])->Some_0));
    Ok(baselines)
}

/// The decimal digit for `d`, for `d` in `0..10`.
pub open spec fn digit_char(d: int) -> char {
    if d == 0 { '0' }
    else if d == 1 { '1' }
    else if d == 2 { '2' }
    else if d == 3 { '3' }
    else if d == 4 { '4' }
    else if d == 5 { '5' }
    else if d == 6 { '6' }
    else if d == 7 { '7' }
    else if d == 8 { '8' }
    else { '9' }
}

/// The decimal rendering of `x`, without leading zeros.
pub open spec fn decimal(x: nat) -> Seq<char>
    decreases x,
{
    if x < 10 {
        seq![digit_char(x as int)]
    } else {
        decimal(x / 10).push(digit_char((x % 10) as int))
    }
}

/// Four values rendered in decimal and joined by commas.
pub open spec fn render_baselines(a: Seq<i32>) -> Seq<char> {
    decimal(a[0] as nat) + seq![','] + decimal(a[1] as nat) + seq![','] + decimal(a[2] as nat) + seq![',']
        + decimal(a[3] as nat)
}

/// The digit for `d` is a decimal digit worth `d`.
proof fn lemma_digit_char(d: int)
    requires
        0 <= d < 10,
    ensures
        text::is_digit(digit_char(d)),
        digit_char(d) as int - '0' as int == d,
{
}

/// A decimal rendering is a non-empty run of digits worth the value.
proof fn lemma_decimal(x: nat)
    ensures
        decimal(x).len() >= 1,
        text::all_digits(decimal(x)),
        text::digits_value(decimal(x)) == x,
    decreases x,
{
    if x < 10 {
        lemma_digit_char(x as int);
        assert(decimal(x).drop_last() =~= Seq::<char>::empty());
        assert(text::digits_value(Seq::<char>::empty()) == 0);
        assert(decimal(x).last() == digit_char(x as int));
        assert(text::digits_value(decimal(x)) == 10 * text::digits_value(decimal(x).drop_last()) + (decimal(x).last() as int - '0' as int));
    } else {
        lemma_decimal(x / 10);
        lemma_digit_char((x % 10) as int);
        let s = decimal(x / 10);
        assert(decimal(x).drop_last() =~= s);
        assert(x == 10 * (x / 10) + x % 10);
        assert(decimal(x).last() == digit_char((x % 10) as int));
        assert(text::digits_value(decimal(x)) == 10 * text::digits_value(decimal(x).drop_last()) + (decimal(x).last() as int - '0' as int));
        assert(text::all_digits(decimal(x))) by {
            assert forall|i: int| 0 <= i < decimal(x).len() implies #[trigger] text::is_digit(decimal(x)[i]) by {
                if i < s.len() {
                    assert(text::is_digit(s[i]));
                }
            }
        }
    }
}

/// A run of digits holds no comma.
proof fn lemma_digits_no_comma(t: Seq<char>)
    requires
        text::all_digits(t),
    ensures
        forall|i: int| 0 <= i < t.len() ==> t[i] != ',',
{
    assert forall|i: int| 0 <= i < t.len() implies t[i] != ',' by {
        assert(text::is_digit(t[i]));
    }
}

/// Appending text without commas extends the last piece.
proof fn lemma_split_append(s: Seq<char>, t: Seq<char>)
    requires
        forall|i: int| 0 <= i < t.len() ==> t[i] != ',',
    ensures
        text::split_commas(s + t) == text::split_commas(s).update(
            text::split_commas(s).len() - 1,
            text::split_commas(s).last() + t,
        ),
    decreases t.len(),
{
    text::lemma_split_nonempty(s);
    let p = text::split_commas(s);
    if t.len() == 0 {
        assert(s + t =~= s);
        assert(p.update(p.len() - 1, p.last() + t) =~= p);
    } else {
        let t1 = t.drop_last();
        lemma_split_append(s, t1);
        assert((s + t).drop_last() =~= s + t1);
        assert(p.last() + t =~= (p.last() + t1).push(t.last()));
        assert(text::split_commas(s + t) =~= p.update(p.len() - 1, p.last() + t));
    }
}

/// Appending a comma starts a new, empty piece.
proof fn lemma_split_comma(s: Seq<char>)
    ensures
        text::split_commas(s + seq![',']) == text::split_commas(s).push(Seq::<char>::empty()),
{
    assert((s + seq![',']).drop_last() =~= s);
}

/// A rendered plausible value reads back as itself.
proof fn lemma_decimal_part(x: i32)
    requires
        0 <= x <= STAT_MAX,
    ensures
        part_value(decimal(x as nat)) == Some(x),
        part_ok(decimal(x as nat)),
{
    let t = decimal(x as nat);
    lemma_decimal(x as nat);
    assert(text::is_digit(t[0]));
    assert(text::is_digit(t.last()));
    assert(text::trim_start(t) == t);
    assert(text::trim_end(t) == t);
    assert(text::unsigned_part(t) == t);
}

/// Four plausible baselines rendered in decimal and joined by commas read
/// back as themselves.
pub proof fn lemma_baseline_round_trip(a: Seq<i32>)
    requires
        a.len() == STAT_COUNT,
        forall|i: int| 0 <= i < STAT_COUNT ==> 0 <= #[trigger] a[i] <= STAT_MAX,
    ensures
        baseline_spec(render_baselines(a)) == Ok::<Seq<i32>, BaselineErrorView>(a),
{
    let d0 = decimal(a[0] as nat);
    let d1 = decimal(a[1] as nat);
    let d2 = decimal(a[2] as nat);
    let d3 = decimal(a[3] as nat);
    lemma_decimal(a[0] as nat);
    lemma_decimal(a[1] as nat);
    lemma_decimal(a[2] as nat);
    lemma_decimal(a[3] as nat);
    lemma_digits_no_comma(d0);
    lemma_digits_no_comma(d1);
    lemma_digits_no_comma(d2);
    lemma_digits_no_comma(d3);
    let e = Seq::<char>::empty();
    lemma_split_append(e, d0);
    assert(e + d0 =~= d0);
    assert(text::split_commas(e) =~= seq![e]);
    let s1 = d0 + seq![','];
    lemma_split_comma(d0);
    lemma_split_append(s1, d1);
    let s2 = s1 + d1 + seq![','];
    lemma_split_comma(s1 + d1);
    lemma_split_append(s2, d2);
    let s3 = s2 + d2 + seq![','];
    lemma_split_comma(s2 + d2);
    lemma_split_append(s3, d3);
    let parts = text::split_commas(render_baselines(a));
    assert(parts =~= seq![d0, d1, d2, d3]);
    lemma_decimal_part(a[0]);
    lemma_decimal_part(a[1]);
    lemma_decimal_part(a[2]);
    lemma_decimal_part(a[3]);
    assert(parts[3] == d3 && parts[2] == d2 && parts[1] == d1 && parts[0] == d0);
    assert(first_bad_part(parts, 4) is None);
    assert(first_bad_part(parts, 3) is None);
    assert(first_bad_part(parts, 2) is None);
    assert(first_bad_part(parts, 1) is None);
    assert(first_bad_part(parts, 0) is None);
    assert(Seq::new(STAT_COUNT as nat, |i: int| part_value(parts[i])->Some_0) =~= a);
}

/// Why the command line was rejected.
#[derive(Debug)]
pub enum ArgError {
    /// `--version` is the last argument.
    VersionNeedsValue,
    /// The value of `--version` names no known game version.
    UnknownVersion { value: String },
    /// `--stat-baseline` is the last argument.
    BaselineNeedsValue,
    /// The value of `--stat-baseline` was rejected.
    Baseline(BaselineError),
    /// An argument starting with `-` is no known option.
    UnknownOption { option: String },
    /// There are not exactly two path arguments.
    PathCount { found: usize },
}

/// An `ArgError` in mathematical terms.
pub enum ArgErrorView {
    VersionNeedsValue,
    UnknownVersion { value: Seq<char> },
    BaselineNeedsValue,
    Baseline(BaselineErrorView),
    UnknownOption { option: Seq<char> },
    PathCount { found: nat },
}

impl View for ArgError {
    type V = ArgErrorView;

    open spec fn view(&self) -> ArgErrorView {
        match self {
            ArgError::VersionNeedsValue => ArgErrorView::VersionNeedsValue,
            ArgError::UnknownVersion { value } => ArgErrorView::UnknownVersion { value: value@ },
            ArgError::BaselineNeedsValue => ArgErrorView::BaselineNeedsValue,
            ArgError::Baseline(e) => ArgErrorView::Baseline(e@),
            ArgError::UnknownOption { option } => ArgErrorView::UnknownOption { option: option@ },
            ArgError::PathCount { found } => ArgErrorView::PathCount { found: *found as nat },
        }
    }
}

/// The game version named by `v`: `auto` asks for detection (`None`).
pub open spec fn version_spec(v: Seq<char>) -> Result<Option<GameVersion>, ArgErrorView> {
    if v == "auto"@ {
        Ok(None)
    } else if v == "fate"@ {
        Ok(Some(GameVersion::Fate))
    } else if v == "traitorsoul"@ {
        Ok(Some(GameVersion::TraitorsSoul))
    } else {
        Err(ArgErrorView::UnknownVersion { value: v })
    }
}

/// Parses the value of `--version`: `auto` (detect), `fate` or `traitorsoul`.
pub fn parse_version(value: &str) -> (res: Result<Option<GameVersion>, ArgError>)
    ensures
        match version_spec(value@) {
            Ok(v) => res matches Ok(r) && r == v,
            Err(e) => res matches Err(x) && x@ == e,
        },
{
    if text_eq(value, "auto") {
        Ok(None)
    } else if text_eq(value, "fate") {
        Ok(Some(GameVersion::Fate))
    } else if text_eq(value, "traitorsoul") {
        Ok(Some(GameVersion::TraitorsSoul))
    } else {
        Err(ArgError::UnknownVersion { value: value.to_owned() })
    }
}

/// The options of a respec run.
pub struct Options {
    pub input: String,
    pub output: String,
    /// The game version to assume; `None` asks for detection.
    pub version: Option<GameVersion>,
    /// The main-stat baselines; `None` means the defaults.
    pub stat_baseline: Option<[i32; 4]>,
}

/// What the command line asks for.
pub enum Command {
    /// Show the usage text.
    Help,
    /// Respec a save.
    Run(Options),
}

/// A `Command` in mathematical terms.
pub enum CommandView {
    Help,
    Run { input: Seq<char>, output: Seq<char>, version: Option<GameVersion>, stat_baseline: Option<Seq<i32>> },
}

/// The view of an optional baseline array.
pub open spec fn baseline_view(b: Option<[i32; 4]>) -> Option<Seq<i32>> {
    match b {
        Some(a) => Some(a@),
        None => None,
    }
}

impl View for Command {
    type V = CommandView;

    open spec fn view(&self) -> CommandView {
        match self {
            Command::Help => CommandView::Help,
            Command::Run(o) => CommandView::Run {
                input: o.input@,
                output: o.output@,
                version: o.version,
                stat_baseline: baseline_view(o.stat_baseline),
            },
        }
    }
}

/// What the arguments seen so far have set.
pub struct ScanState {
    pub positionals: Seq<Seq<char>>,
    pub version: Option<GameVersion>,
    pub stat_baseline: Option<Seq<i32>>,
}

/// True for the arguments that ask for the usage text.
pub open spec fn is_help_flag(a: Seq<char>) -> bool {
    a == "-h"@ || a == "--help"@
}

/// Reads the arguments from `i` on, in order: an option's value replaces any
/// earlier one, and every other argument is a path.
pub open spec fn scan_args(args: Seq<Seq<char>>, i: int, st: ScanState) -> Result<ScanState, ArgErrorView>
    decreases args.len() - i,
{
    if i < 0 || i >= args.len() {
        Ok(st)
    } else {
        let a = args[i];
        if a == "--version"@ {
            if i + 1 >= args.len() {
                Err(ArgErrorView::VersionNeedsValue)
            } else {
                match version_spec(args[i + 1]) {
                    Err(e) => Err(e),
                    Ok(v) => scan_args(args, i + 2, ScanState { positionals: st.positionals, version: v, stat_baseline: st.stat_baseline }),
                }
            }
        } else if text::has_prefix(a, "--version="@) {
            match version_spec(a.skip("--version="@.len() as int)) {
                Err(e) => Err(e),
                Ok(v) => scan_args(args, i + 1, ScanState { positionals: st.positionals, version: v, stat_baseline: st.stat_baseline }),
            }
        } else if a == "--stat-baseline"@ {
            if i + 1 >= args.len() {
                Err(ArgErrorView::BaselineNeedsValue)
            } else {
                match baseline_spec(args[i + 1]) {
                    Err(e) => Err(ArgErrorView::Baseline(e)),
                    Ok(b) => scan_args(args, i + 2, ScanState { positionals: st.positionals, version: st.version, stat_baseline: Some(b) }),
                }
            }
        } else if text::has_prefix(a, "--stat-baseline="@) {
            match baseline_spec(a.skip("--stat-baseline="@.len() as int)) {
                Err(e) => Err(ArgErrorView::Baseline(e)),
                Ok(b) => scan_args(args, i + 1, ScanState { positionals: st.positionals, version: st.version, stat_baseline: Some(b) }),
            }
        } else if a.len() > 0 && a[0] == '-' && a != "-"@ {
            Err(ArgErrorView::UnknownOption { option: a })
        } else {
            scan_args(args, i + 1, ScanState { positionals: st.positionals.push(a), version: st.version, stat_baseline: st.stat_baseline })
        }
    }
}

/// What the command line `args` asks for: the usage text when any argument
/// asks for it; otherwise a run with exactly two paths, the input and the
/// output, and the options given.
pub open spec fn args_spec(args: Seq<Seq<char>>) -> Result<CommandView, ArgErrorView> {
    if exists|i: int| 0 <= i < args.len() && #[trigger] is_help_flag(args[i]) {
        Ok(CommandView::Help)
    } else {
        match scan_args(args, 0, ScanState { positionals: Seq::empty(), version: None, stat_baseline: None }) {
            Err(e) => Err(e),
            Ok(st) => if st.positionals.len() != 2 {
                Err(ArgErrorView::PathCount { found: st.positionals.len() })
            } else {
                Ok(CommandView::Run {
                    input: st.positionals[0],
                    output: st.positionals[1],
                    version: st.version,
                    stat_baseline: st.stat_baseline,
                })
            },
        }
    }
}

/// The views of a list of strings.
pub open spec fn views_of(args: Seq<String>) -> Seq<Seq<char>> {
    args.map_values(|a: String| a@)
}

/// The state the exec scan keeps, in mathematical terms.
pub open spec fn scan_state_of(positionals: Seq<String>, version: Option<GameVersion>, stat_baseline: Option<[i32; 4]>) -> ScanState {
    ScanState { positionals: views_of(positionals), version, stat_baseline: baseline_view(stat_baseline) }
}

/// Parses the command-line arguments (without the program name): two
/// positional paths and the optional `--version` and `--stat-baseline`
/// options; any `-h` or `--help` asks for the usage text.
pub fn parse_args(args: &Vec<String>) -> (res: Result<Command, ArgError>)
    ensures
        match args_spec(views_of(args@)) {
            Ok(c) => res matches Ok(r) && r@ == c,
            Err(e) => res matches Err(x) && x@ == e,
        },
{
    let ghost av = views_of(args@);
    let n = args.len();
    let mut h: usize = 0;
    while h < n
        invariant
            n == args@.len(),
            av == views_of(args@),
            h <= n,
            forall|k: int| 0 <= k < h ==> !#[trigger] is_help_flag(av[k]),
        decreases n - h,
    {
        let a = args[h].as_str();
        if text_eq(a, "-h") || text_eq(a, "--help") {
            assert(is_help_flag(av[h as int]));
            return Ok(Command::Help);
        }
        h = h + 1;
    }
    assert(!exists|i: int| 0 <= i < av.len() && #[trigger] is_help_flag(av[i]));

    let mut positionals: Vec<String> = Vec::new();
    let mut version: Option<GameVersion> = None;
    let mut stat_baseline: Option<[i32; 4]> = None;
    let ghost init = ScanState { positionals: Seq::empty(), version: None, stat_baseline: None };
    assert(scan_state_of(positionals@, version, stat_baseline) =~= init) by {
        assert(views_of(positionals@) =~= Seq::<Seq<char>>::empty());
    }
    let mut i: usize = 0;
    while i < n
        invariant
            n == args@.len(),
            av == views_of(args@),
            i <= n,
            !exists|k: int| 0 <= k < av.len() && #[trigger] is_help_flag(av[k]),
            init == (ScanState { positionals: Seq::empty(), version: None, stat_baseline: None }),
            scan_args(av, 0, init) == scan_args(av, i as int, scan_state_of(positionals@, version, stat_baseline)),
        decreases n - i,
    {
        let a = args[i].as_str();
        let len = a.unicode_len();
        let ghost st = scan_state_of(positionals@, version, stat_baseline);
        assert(av[i as int] == a@);
        if text_eq(a, "--version") {
            if i + 1 >= n {
                return Err(ArgError::VersionNeedsValue);
            }
            assert(av[i + 1] == args@[i + 1]@);
            version = match parse_version(args[i + 1].as_str()) {
                Ok(v) => v,
                Err(e) => return Err(e),
            };
            i = i + 2;
        } else if starts_with(a, "--version=") {
            let plen = "--version=".unicode_len();
            let value = a.substring_char(plen, len);
            assert(value@ =~= a@.skip(plen as int));
            version = match parse_version(value) {
                Ok(v) => v,
                Err(e) => return Err(e),
            };
            i = i + 1;
        } else if text_eq(a, "--stat-baseline") {
            if i + 1 >= n {
                return Err(ArgError::BaselineNeedsValue);
            }
            assert(av[i + 1] == args@[i + 1]@);
            stat_baseline = match parse_stat_baseline(args[i + 1].as_str()) {
                Ok(b) => Some(b),
                Err(e) => return Err(ArgError::Baseline(e)),
            };
            i = i + 2;
        } else if starts_with(a, "--stat-baseline=") {
            let plen = "--stat-baseline=".unicode_len();
            let value = a.substring_char(plen, len);
            assert(value@ =~= a@.skip(plen as int));
            stat_baseline = match parse_stat_baseline(value) {
                Ok(b) => Some(b),
                Err(e) => return Err(ArgError::Baseline(e)),
            };
            i = i + 1;
        } else if len > 0 && a.get_char(0) == '-' && !text_eq(a, "-") {
            return Err(ArgError::UnknownOption { option: a.to_owned() });
        } else {
            positionals.push(args[i].clone());
            assert(views_of(positionals@) =~= st.positionals.push(a@));
            i = i + 1;
        }
    }
    let ghost fin = scan_state_of(positionals@, version, stat_baseline);
    assert(scan_args(av, i as int, fin) == Ok::<ScanState, ArgErrorView>(fin));
    if positionals.len() != 2 {
        return Err(ArgError::PathCount { found: positionals.len() });
    }
    let output = positionals.pop().unwrap();
    let input = positionals.pop().unwrap();
    Ok(Command::Run(Options { input, output, version, stat_baseline }))
}

/// Asking for help anywhere on the command line, first argument included,
/// shows the usage text, whatever the other arguments hold.
pub proof fn lemma_help_anywhere(args: Seq<Seq<char>>, i: int)
    requires
        0 <= i < args.len(),
        args[i] == "-h"@ || args[i] == "--help"@,
    ensures
        args_spec(args) == Ok::<CommandView, ArgErrorView>(CommandView::Help),
{
    assert(is_help_flag(args[i]));
}

/// Whether a run may go ahead with these paths: writing the output over the
/// input save is refused, so they must differ.
pub fn paths_differ(input: &str, output: &str) -> (ok: bool)
    ensures
        ok == (input@ != output@),
{
    !text_eq(input, output)
}

} // verus!
