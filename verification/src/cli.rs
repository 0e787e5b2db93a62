//! Command-line argument parsing.
//!
//! The parser is pure: whether a path exists on disk is a fact only the
//! caller can look up, so the caller stats each argument once and hands the
//! results in as a `PathFact` per argument. Everything else — flag handling,
//! the default mood of the flags, the number parsing, the exact error
//! messages and their order — is decided and verified here, stated by
//! `spec_final`.

use vstd::prelude::*;
use vstd::string::StrSliceExecFns;
use vstd::string::StringExecFns;

verus! {

/// What the file system says about one argument, were it read as a path:
/// whether it exists, whether it is a regular file, and its extension.
#[derive(Debug)]
pub struct PathFact {
    pub exists: bool,
    pub is_file: bool,
    pub extension: Option<String>,
}

/// A validated request: which image to read, where to write the palette
/// image, how to print, and how many colors to extract.
#[derive(Debug)]
pub struct Request {
    pub img_path: String,
    pub output_path: Option<String>,
    pub rgb: bool,
    pub hex: bool,
    pub silent: bool,
    pub time: bool,
    pub num_colors: usize,
}

/// The argument errors found, in the order they were detected.
#[derive(Debug)]
pub struct ArgumentError {
    pub errors: Vec<String>,
}

/// ASCII case folding of one character: an upper-case letter maps to its
/// lower-case counterpart, everything else to itself (as a code point).
pub open spec fn spec_fold_char(c: char) -> int {
    if 65 <= c as u32 <= 90 {
        c as u32 + 32
    } else {
        c as u32 as int
    }
}

/// Equality of two strings up to ASCII case.
pub open spec fn spec_ci_eq(a: Seq<char>, b: Seq<char>) -> bool {
    a.len() == b.len() && forall|i: int|
        0 <= i < a.len() ==> spec_fold_char(#[trigger] a[i]) == spec_fold_char(b[i])
}

fn eq_ignore_case(s: &str, lit: &str) -> (r: bool)
    ensures
        r == spec_ci_eq(s@, lit@),
{
    let la = s.unicode_len();
    let lb = lit.unicode_len();
    if la != lb {
        return false;
    }
    let mut i: usize = 0;
    while i < la
        invariant
            i <= la,
            la == s@.len(),
            la == lit@.len(),
            forall|t: int| 0 <= t < i ==> spec_fold_char(#[trigger] s@[t]) == spec_fold_char(lit@[t]),
        decreases la - i,
    {
        let ua = s.get_char(i) as u32;
        let ub = lit.get_char(i) as u32;
        let fa = if ua >= 65 && ua <= 90 {
            ua + 32
        } else {
            ua
        };
        let fb = if ub >= 65 && ub <= 90 {
            ub + 32
        } else {
            ub
        };
        if fa != fb {
            return false;
        }
        i = i + 1;
    }
    true
}

/// The extensions accepted as raster images, compared up to ASCII case.
pub open spec fn spec_is_image_ext(e: Seq<char>) -> bool {
    spec_ci_eq(e, "png"@) || spec_ci_eq(e, "jpg"@) || spec_ci_eq(e, "jpeg"@) || spec_ci_eq(
        e,
        "bmp"@,
    ) || spec_ci_eq(e, "gif"@) || spec_ci_eq(e, "webp"@)
}

/// Whether a path with the given extension names a supported image format.
pub open spec fn spec_is_image(ext: Option<String>) -> bool {
    match ext {
        Option::Some(s) => spec_is_image_ext(s@),
        Option::None => false,
    }
}

/// Whether a file with this extension (none, when the path has no extension)
/// is a supported image format.
pub fn is_image(extension: &Option<String>) -> (r: bool)
    ensures
        r == spec_is_image(*extension),
{
    match extension {
        Option::Some(s) => {
            eq_ignore_case(s.as_str(), "png") || eq_ignore_case(s.as_str(), "jpg")
                || eq_ignore_case(s.as_str(), "jpeg") || eq_ignore_case(s.as_str(), "bmp")
                || eq_ignore_case(s.as_str(), "gif") || eq_ignore_case(s.as_str(), "webp")
        },
        Option::None => false,
    }
}

/// Value of a string of decimal digits, most significant first.
pub open spec fn spec_digits_val(s: Seq<char>) -> int
    decreases s.len(),
{
    if s.len() == 0 {
        0
    } else {
        spec_digits_val(s.drop_last()) * 10 + (s.last() as u32 - 48)
    }
}

/// Every character is a decimal digit.
pub open spec fn spec_all_digits(s: Seq<char>) -> bool {
    forall|i: int| 0 <= i < s.len() ==> 48 <= (#[trigger] s[i]) as u32 <= 57
}

/// What parsing a non-negative machine integer accepts: an optional leading
/// plus sign, then at least one decimal digit, the value fitting the machine
/// word; anything else is rejected.
pub open spec fn spec_parse_usize(s: Seq<char>) -> Option<int> {
    let body = if s.len() > 0 && s[0] == '+' {
        s.subrange(1, s.len() as int)
    } else {
        s
    };
    if body.len() >= 1 && spec_all_digits(body) && spec_digits_val(body) <= usize::MAX {
        Option::Some(spec_digits_val(body))
    } else {
        Option::None
    }
}

proof fn lemma_digits_val_nonneg(s: Seq<char>)
    requires
        spec_all_digits(s),
    ensures
        spec_digits_val(s) >= 0,
    decreases s.len(),
{
    if s.len() > 0 {
        let q = s.drop_last();
        assert(forall|i: int| 0 <= i < q.len() ==> q[i] == s[i]);
        lemma_digits_val_nonneg(q);
    }
}

proof fn lemma_digits_prefix_le(s: Seq<char>, k: int)
    requires
        spec_all_digits(s),
        0 <= k <= s.len(),
    ensures
        spec_digits_val(s.take(k)) <= spec_digits_val(s),
    decreases s.len(),
{
    if k == s.len() {
        assert(s.take(k) =~= s);
    } else {
        let q = s.drop_last();
        assert(forall|i: int| 0 <= i < q.len() ==> q[i] == s[i]);
        lemma_digits_prefix_le(q, k);
        assert(s.take(k) =~= q.take(k));
        lemma_digits_val_nonneg(q);
    }
}

/// Parses a non-negative integer as the standard library does: an optional
/// leading plus sign, then decimal digits; `None` on anything else or when
/// the value does not fit.
pub fn parse_usize(s: &String) -> (r: Option<usize>)
    ensures
        r is Some <==> spec_parse_usize(s@) is Some,
        r matches Some(v) ==> spec_parse_usize(s@) == Option::Some(v as int),
{
    let len = s.as_str().unicode_len();
    let start: usize = if len > 0 && s.as_str().get_char(0) == '+' {
        1
    } else {
        0
    };
    let ghost body = if start == 1 {
        s@.subrange(1, len as int)
    } else {
        s@
    };
    if len == start {
        proof {
            assert(body.len() == 0);
            assert(spec_parse_usize(s@) is None);
        }
        return None;
    }
    let mut acc: usize = 0;
    let mut i: usize = start;
    proof {
        assert(body.take(0) =~= Seq::<char>::empty());
    }
    while i < len
        invariant
            start <= i <= len,
            len == s@.len(),
            start == 1 ==> len > 0 && s@[0] == '+',
            start == 0 ==> len == 0 || s@[0] != '+',
            start == 0 || start == 1,
            body == (if start == 1 {
                s@.subrange(1, len as int)
            } else {
                s@
            }),
            body.len() == len - start,
            spec_all_digits(body.take(i - start)),
            acc == spec_digits_val(body.take(i - start)),
        decreases len - i,
    {
        let c = s.as_str().get_char(i);
        let u = c as u32;
        proof {
            assert(body[i - start] == s@[i as int]);
        }
        if u < 48 || u > 57 {
            proof {
                assert(!spec_all_digits(body));
                assert(spec_parse_usize(s@) is None);
            }
            return None;
        }
        let d = (u - 48) as usize;
        let ghost k: int = i - start;
        proof {
            assert(body.take(k + 1).drop_last() =~= body.take(k));
            assert(body.take(k + 1).last() == body[k]);
        }
        if acc > (usize::MAX - d) / 10 {
            proof {
                let m = (usize::MAX - d) as int;
                vstd::arithmetic::div_mod::lemma_fundamental_div_mod(m, 10);
                assert(10 * (m / 10) <= m);
                assert(acc * 10 > m - d + d) by (nonlinear_arith)
                    requires
                        acc as int >= m / 10 + 1 && 10 * (m / 10) <= m,
                ;
                if spec_all_digits(body) {
                    lemma_digits_prefix_le(body, k + 1);
                    assert(spec_digits_val(body.take(k + 1)) == acc * 10 + (body[k] as u32 - 48));
                    assert(spec_digits_val(body) > usize::MAX);
                }
                assert(spec_parse_usize(s@) is None);
            }
            return None;
        }
        proof {
            let m = (usize::MAX - d) as int;
            vstd::arithmetic::div_mod::lemma_fundamental_div_mod(m, 10);
            assert((m % 10) >= 0 && 10 * (m / 10) + m % 10 == m);
            assert(acc * 10 <= m - (m % 10)) by (nonlinear_arith)
                requires
                    acc as int <= m / 10 && 10 * (m / 10) + m % 10 == m,
            ;
        }
        acc = acc * 10 + d;
        i = i + 1;
    }
    proof {
        assert(body.take(len - start) =~= body);
    }
    Some(acc)
}


/// The error text for a missing image path argument.
pub open spec fn msg_missing() -> Seq<char> {
    "Missing required image path"@
}

pub open spec fn msg_img_not_exist(p: Seq<char>) -> Seq<char> {
    "Image path '"@ + p + "' does not exist"@
}

pub open spec fn msg_img_not_file(p: Seq<char>) -> Seq<char> {
    "Image path '"@ + p + "' is not a file"@
}

pub open spec fn msg_img_not_supported(p: Seq<char>) -> Seq<char> {
    "File '"@ + p + "' is not a supported image format"@
}

pub open spec fn msg_invalid_num() -> Seq<char> {
    "Invalid use of -num, it requires a valid number (1-12)"@
}

pub open spec fn msg_num_requires() -> Seq<char> {
    "-num flag requires a number argument"@
}

pub open spec fn msg_path_not_exist(p: Seq<char>) -> Seq<char> {
    "Path '"@ + p + "' does not exist"@
}

pub open spec fn msg_unknown(a: Seq<char>) -> Seq<char> {
    "Unknown argument: '"@ + a + "'"@
}

pub open spec fn msg_silent_conflict() -> Seq<char> {
    "Silent flag cannot be used with RGB or hex flags"@
}

/// The parser's state: the flags seen so far, the color count, the index of
/// the accepted output-path argument, and the errors found, in order.
pub ghost struct ParseState {
    pub rgb: bool,
    pub hex: bool,
    pub silent: bool,
    pub time: bool,
    pub num_colors: int,
    pub output: Option<int>,
    pub errs: Seq<Seq<char>>,
}

/// The state before any option is read: defaults, plus the validation of the
/// image path argument against the facts the caller looked up for it.
pub open spec fn spec_init(args: Seq<String>, facts: Seq<PathFact>) -> ParseState {
    ParseState {
        rgb: false,
        hex: false,
        silent: false,
        time: false,
        num_colors: 5,
        output: Option::None,
        errs: if !facts[0].exists {
            seq![msg_img_not_exist(args[0]@)]
        } else if !facts[0].is_file {
            seq![msg_img_not_file(args[0]@)]
        } else if !spec_is_image(facts[0].extension) {
            seq![msg_img_not_supported(args[0]@)]
        } else {
            Seq::empty()
        },
    }
}

/// One option handled: how argument `i` transforms the state. A flag sets
/// its field; `-num` reads the following argument as the color count; any
/// other argument is skipped if the preceding one was `-num`, else taken as
/// the output path if it exists and none was taken yet, else reported.
pub open spec fn spec_step(st: ParseState, args: Seq<String>, facts: Seq<PathFact>, i: int) -> ParseState {
    let a = args[i]@;
    if a == "-rgb"@ {
        ParseState { rgb: true, ..st }
    } else if a == "-hx"@ {
        ParseState { hex: true, ..st }
    } else if a == "-silent"@ {
        ParseState { silent: true, ..st }
    } else if a == "-time"@ {
        ParseState { time: true, ..st }
    } else if a == "-num"@ {
        if i + 1 < args.len() {
            match spec_parse_usize(args[i + 1]@) {
                Option::Some(v) => ParseState { num_colors: v, ..st },
                Option::None => ParseState { errs: st.errs.push(msg_invalid_num()), ..st },
            }
        } else {
            ParseState { errs: st.errs.push(msg_num_requires()), ..st }
        }
    } else if i > 1 && args[i - 1]@ == "-num"@ {
        st
    } else if st.output is None {
        if !facts[i].exists {
            ParseState { errs: st.errs.push(msg_path_not_exist(a)), ..st }
        } else {
            ParseState { output: Option::Some(i), ..st }
        }
    } else {
        ParseState { errs: st.errs.push(msg_unknown(a)), ..st }
    }
}

/// The state after the arguments before index `i` have been handled.
pub open spec fn spec_fold(args: Seq<String>, facts: Seq<PathFact>, i: int) -> ParseState
    decreases i,
{
    if i <= 1 {
        spec_init(args, facts)
    } else {
        spec_step(spec_fold(args, facts, i - 1), args, facts, i - 1)
    }
}

/// The parser's outcome on a non-empty argument list: every argument
/// handled, then the silent flag checked against the color flags, then the
/// plain-print default applied when no flag was given.
pub open spec fn spec_final(args: Seq<String>, facts: Seq<PathFact>) -> ParseState {
    let st = spec_fold(args, facts, args.len() as int);
    let st1 = if st.silent && (st.rgb || st.hex) {
        ParseState { errs: st.errs.push(msg_silent_conflict()), ..st }
    } else {
        st
    };
    if !st1.rgb && !st1.hex && !st1.silent && !st1.time {
        ParseState { rgb: true, ..st1 }
    } else {
        st1
    }
}

fn is_lit(s: &String, lit: &str) -> (r: bool)
    ensures
        r == (s@ == lit@),
{
    let l = lit.to_owned();
    s.eq(&l)
}

/// Validates the command line against the path facts the caller looked up,
/// one fact per argument. Returns the request exactly when `spec_final`
/// finds no error, with every field as `spec_final` states it; otherwise
/// every error message found, in order.
pub fn parse_args(args: Vec<String>, facts: Vec<PathFact>) -> (r: Result<Request, ArgumentError>)
    requires
        facts@.len() == args@.len(),
    ensures
        args@.len() == 0 ==> r is Err,
        args@.len() == 0 ==> (r matches Err(e) ==> e.errors@.len() == 1 && e.errors[0]@
            == msg_missing()),
        args@.len() >= 1 ==> (r is Ok <==> spec_final(args@, facts@).errs.len() == 0),
        args@.len() >= 1 ==> (r matches Ok(req) ==> ({
            let st = spec_final(args@, facts@);
            req.img_path@ == args[0]@ && req.rgb == st.rgb && req.hex == st.hex && req.silent
                == st.silent && req.time == st.time && req.num_colors as int == st.num_colors && (
            st.output is None ==> req.output_path is None) && (st.output matches Some(t) ==> (
            req.output_path matches Some(p) && p@ == args[t]@))
        })),
        args@.len() >= 1 ==> (r matches Err(e) ==> ({
            let st = spec_final(args@, facts@);
            e.errors@.len() == st.errs.len() && (forall|t: int|
                0 <= t < st.errs.len() ==> e.errors[t]@ == st.errs[t])
        })),
{
    let mut errors: Vec<String> = Vec::new();

    if args.len() == 0 {
        errors.push("Missing required image path".to_owned());
        return Err(ArgumentError { errors });
    }

    if !facts[0].exists {
        errors.push("Image path '".to_owned().concat(args[0].as_str()).concat(
            "' does not exist",
        ));
    } else if !facts[0].is_file {
        errors.push("Image path '".to_owned().concat(args[0].as_str()).concat("' is not a file"));
    } else if !is_image(&facts[0].extension) {
        errors.push("File '".to_owned().concat(args[0].as_str()).concat(
            "' is not a supported image format",
        ));
    }

    let mut rgb = false;
    let mut hex = false;
    let mut silent = false;
    let mut time = false;
    let mut num_colors: usize = 5;
    let mut output_path: Option<String> = None;

    let mut i: usize = 1;
    while i < args.len()
        invariant
            1 <= i <= args.len(),
            args@.len() >= 1,
            facts@.len() == args@.len(),
            ({
                let st = spec_fold(args@, facts@, i as int);
                rgb == st.rgb && hex == st.hex && silent == st.silent && time == st.time
                    && num_colors as int == st.num_colors && (st.output is None <==> output_path
                    is None) && (st.output matches Some(t) ==> (output_path matches Some(p) && p@
                    == args[t]@)) && errors@.len() == st.errs.len() && (forall|t: int|
                    0 <= t < st.errs.len() ==> errors[t]@ == st.errs[t])
            }),
        decreases args@.len() - i,
    {
        let ghost st_pre = spec_fold(args@, facts@, i as int);
        proof {
            assert(spec_fold(args@, facts@, i + 1 as int) == spec_step(
                st_pre,
                args@,
                facts@,
                i as int,
            ));
        }
        if is_lit(&args[i], "-rgb") {
            rgb = true;
        } else if is_lit(&args[i], "-hx") {
            hex = true;
        } else if is_lit(&args[i], "-silent") {
            silent = true;
        } else if is_lit(&args[i], "-time") {
            time = true;
        } else if is_lit(&args[i], "-num") {
            if i + 1 < args.len() {
                match parse_usize(&args[i + 1]) {
                    Some(v) => {
                        num_colors = v;
                    },
                    None => {
                        errors.push(
                            "Invalid use of -num, it requires a valid number (1-12)".to_owned(),
                        );
                    },
                }
            } else {
                errors.push("-num flag requires a number argument".to_owned());
            }
        } else if i > 1 && is_lit(&args[i - 1], "-num") {
            // the preceding -num flag consumed this argument
        } else if output_path.is_none() {
            if !facts[i].exists {
                errors.push("Path '".to_owned().concat(args[i].as_str()).concat(
                    "' does not exist",
                ));
            } else {
                output_path = Some(args[i].clone());
            }
        } else {
            errors.push("Unknown argument: '".to_owned().concat(args[i].as_str()).concat("'"));
        }
        i = i + 1;
    }

    if silent && (rgb || hex) {
        errors.push("Silent flag cannot be used with RGB or hex flags".to_owned());
    }

    if !rgb && !hex && !silent && !time {
        rgb = true;
    }

    if errors.len() > 0 {
        return Err(ArgumentError { errors });
    }

    Ok(
        Request {
            img_path: args[0].clone(),
            output_path,
            rgb,
            hex,
            silent,
            time,
            num_colors,
        },
    )
}

} // verus!
