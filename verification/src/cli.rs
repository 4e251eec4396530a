//! The decisions of the command line: option values, the output format, the
//! paste answer, and the text that is shown and written.
use vstd::prelude::*;

use crate::binary::{decimal_digits, to_decimal};
use crate::patterns::{pattern_index, get_pat_bin_optional, lemma_pattern_index};
use crate::text::{chars_eq, chars_of, chars_of_all, chars_view, concat_chars, string_of};

verus! {

// ---------------------------------------------------------------------------
// Options
// ---------------------------------------------------------------------------

/// Why the command line cannot be used.
#[derive(Clone, Copy, Debug, PartialEq, Eq, Structural)]
pub enum ArgumentError {
    /// `-h` was given: the usage is to be shown instead.
    HelpRequested,
    /// An option was followed by another option instead of its value.
    OptionAsValue,
}

/// The value that follows the first occurrence of `opt`, if any.
pub open spec fn option_value(args: Seq<Seq<char>>, opt: Seq<char>) -> Option<Seq<char>> {
    match pattern_index(args, opt) {
        Some(i) => if i + 1 < args.len() {
            Some(args[i + 1])
        } else {
            None
        },
        None => None,
    }
}

/// The values of the options `rest`, in order; an option whose value is one
/// of the `options` fails.
pub open spec fn option_values(
    args: Seq<Seq<char>>,
    options: Seq<Seq<char>>,
    rest: Seq<Seq<char>>,
) -> Result<Seq<Option<Seq<char>>>, ArgumentError>
    decreases rest.len(),
{
    if rest.len() == 0 {
        Ok(Seq::empty())
    } else {
        let v = option_value(args, rest[0]);
        if v is Some && options.contains(v->0) {
            Err(ArgumentError::OptionAsValue)
        } else {
            match option_values(args, options, rest.drop_first()) {
                Ok(vs) => Ok(seq![v] + vs),
                Err(e) => Err(e),
            }
        }
    }
}

/// The values of `options` on the command line `args`.
pub open spec fn arguments_of(args: Seq<Seq<char>>, options: Seq<Seq<char>>) -> Result<
    Seq<Option<Seq<char>>>,
    ArgumentError,
> {
    if args.contains(seq!['-', 'h']) {
        Err(ArgumentError::HelpRequested)
    } else {
        option_values(args, options, options)
    }
}

/// The texts of optional strings.
pub open spec fn options_view(v: Seq<Option<String>>) -> Seq<Option<Seq<char>>> {
    Seq::new(
        v.len(),
        |i: int|
            match v[i] {
                Some(s) => Some(s@),
                None => None,
            },
    )
}

/// The value given to each of `fulfill` on the command line `args`: the
/// argument after the option's first occurrence, `None` when the option is
/// missing or last. Fails when `-h` is given, and when an option's value is
/// itself one of the options.
pub fn try_get_arguments(args: &Vec<String>, fulfill: &Vec<String>) -> (r: Result<
    Vec<Option<String>>,
    ArgumentError,
>)
    ensures
        match r {
            Ok(v) => arguments_of(args.deep_view(), fulfill.deep_view()) == Ok::<
                Seq<Option<Seq<char>>>,
                ArgumentError,
            >(options_view(v@)),
            Err(e) => arguments_of(args.deep_view(), fulfill.deep_view()) == Err::<
                Seq<Option<Seq<char>>>,
                ArgumentError,
            >(e),
        },
{
    let a = chars_of_all(args);
    let o = chars_of_all(fulfill);
    let ghost av = chars_view(a@);
    let ghost ov = chars_view(o@);
    let help = vec!['-', 'h'];
    proof {
        lemma_pattern_index(av, seq!['-', 'h']);
    }
    if get_pat_bin_optional(&help, &a).is_some() {
        return Err(ArgumentError::HelpRequested);
    }
    let mut given: Vec<Option<String>> = Vec::new();
    let mut i: usize = 0;
    assert(ov.skip(0) =~= ov);
    while i < o.len()
        invariant
            i <= o.len(),
            av == chars_view(a@),
            ov == chars_view(o@),
            av == args.deep_view(),
            ov == fulfill.deep_view(),
            !av.contains(seq!['-', 'h']),
            option_values(av, ov, ov) == match option_values(av, ov, ov.skip(i as int)) {
                Ok(vs) => Ok(options_view(given@) + vs),
                Err(e) => Err(e),
            },
        decreases o.len() - i,
    {
        assert(ov.skip(i as int)[0] == ov[i as int]);
        assert(ov.skip(i as int).drop_first() =~= ov.skip(i + 1));
        let ghost opt = ov[i as int];
        proof {
            lemma_pattern_index(av, opt);
            lemma_pattern_index(ov, opt);
        }
        let value: Option<String> = match get_pat_bin_optional(&o[i], &a) {
            Some(code) => {
                if code < a.len() {
                    let v = &a[code];
                    proof {
                        lemma_pattern_index(ov, v@);
                    }
                    if get_pat_bin_optional(v, &o).is_some() {
                        return Err(ArgumentError::OptionAsValue);
                    }
                    Some(string_of(v))
                } else {
                    None
                }
            },
            None => None,
        };
        let ghost g0 = options_view(given@);
        given.push(value);
        proof {
            let v = option_value(av, opt);
            assert(options_view(given@) =~= g0.push(v));
            match option_values(av, ov, ov.skip(i + 1)) {
                Ok(vs) => {
                    assert(g0 + (seq![v] + vs) =~= g0.push(v) + vs);
                },
                Err(_) => {},
            }
        }
        i = i + 1;
    }
    assert(ov.skip(o.len() as int) =~= Seq::<Seq<char>>::empty());
    assert(options_view(given@) + Seq::<Option<Seq<char>>>::empty() =~= options_view(given@));
    Ok(given)
}

/// The value given to each of `fulfill` on the command line `args`: the
/// argument after the option's first occurrence, `None` when the option is
/// missing or last. The command line holds no `-h` and no option whose
/// value is another option; the program stops on those.
pub fn get_arguments(args: &Vec<String>, fulfill: &Vec<String>) -> (r: Vec<Option<String>>)
    requires
        arguments_of(args.deep_view(), fulfill.deep_view()) is Ok,
    ensures
        arguments_of(args.deep_view(), fulfill.deep_view()) == Ok::<
            Seq<Option<Seq<char>>>,
            ArgumentError,
        >(options_view(r@)),
{
    match try_get_arguments(args, fulfill) {
        Ok(v) => v,
        Err(_) => {
            assert(false);
            Vec::new()
        },
    }
}

// ---------------------------------------------------------------------------
// Output format and paste answer
// ---------------------------------------------------------------------------

/// The forms that the encoded program can be written in.
#[derive(Clone, Copy, Debug, PartialEq, Eq, Structural)]
pub enum OutputFormat {
    /// Lines of binary digits.
    Bin,
    /// Octal digits, for the pasting macro.
    Octal,
    /// Dance moves, for the dance decoder.
    Dance,
}

/// The format that `s` names: `bin`, `octal` or `dance`.
pub open spec fn format_named(s: Seq<char>) -> Option<OutputFormat> {
    if s == "bin"@ {
        Some(OutputFormat::Bin)
    } else if s == "octal"@ {
        Some(OutputFormat::Octal)
    } else if s == "dance"@ {
        Some(OutputFormat::Dance)
    } else {
        None
    }
}

/// The format that `s` names: `bin`, `octal` or `dance`; `None` for any
/// other text.
pub fn parse_output_format(s: &String) -> (r: Option<OutputFormat>)
    ensures
        r == format_named(s@),
{
    let c = chars_of(s.as_str());
    if chars_eq(&c, &chars_of("bin")) {
        Some(OutputFormat::Bin)
    } else if chars_eq(&c, &chars_of("octal")) {
        Some(OutputFormat::Octal)
    } else if chars_eq(&c, &chars_of("dance")) {
        Some(OutputFormat::Dance)
    } else {
        None
    }
}

/// The answer that `s` gives, in either case: `y` yes, `n` no.
pub open spec fn answer_named(s: Seq<char>) -> Option<bool> {
    if s == seq!['y'] || s == seq!['Y'] {
        Some(true)
    } else if s == seq!['n'] || s == seq!['N'] {
        Some(false)
    } else {
        None
    }
}

/// The answer that `s` gives, in either case: `y` yes, `n` no; `None` for
/// any other text.
pub fn parse_yes_no(s: &String) -> (r: Option<bool>)
    ensures
        r == answer_named(s@),
{
    let c = chars_of(s.as_str());
    if c.len() != 1 {
        return None;
    }
    assert(c@ == seq![c@[0]]);
    if c[0] == 'y' || c[0] == 'Y' {
        Some(true)
    } else if c[0] == 'n' || c[0] == 'N' {
        Some(false)
    } else {
        None
    }
}

// ---------------------------------------------------------------------------
// Rendering
// ---------------------------------------------------------------------------

/// The lines joined with `sep` between them.
pub open spec fn joined(lines: Seq<Seq<char>>, sep: Seq<char>) -> Seq<char>
    decreases lines.len(),
{
    if lines.len() == 0 {
        Seq::empty()
    } else if lines.len() == 1 {
        lines[0]
    } else {
        joined(lines.drop_last(), sep) + sep + lines.last()
    }
}

/// Each line followed by `after`.
pub open spec fn each_followed(lines: Seq<Seq<char>>, after: Seq<char>) -> Seq<char>
    decreases lines.len(),
{
    if lines.len() == 0 {
        Seq::empty()
    } else {
        each_followed(lines.drop_last(), after) + lines.last() + after
    }
}

/// The values written in decimal one after another.
pub open spec fn digits_text(values: Seq<u8>) -> Seq<char>
    decreases values.len(),
{
    if values.len() == 0 {
        Seq::empty()
    } else {
        digits_text(values.drop_last()) + decimal_digits(values.last() as nat)
    }
}

/// The separator written under each dance move.
pub open spec fn dance_separator() -> Seq<char> {
    "\n-----------------------------------------\n"@
}

/// The binary program as text: its lines joined by line breaks.
pub fn render_binary(encoded: &Vec<String>) -> (r: String)
    ensures
        r@ == joined(encoded.deep_view(), seq!['\n']),
{
    let lines = chars_of_all(encoded);
    let ghost lv = chars_view(lines@);
    let mut out: Vec<char> = Vec::new();
    let mut i: usize = 0;
    let nl = vec!['\n'];
    while i < lines.len()
        invariant
            i <= lines.len(),
            lv == chars_view(lines@),
            nl@ == seq!['\n'],
            out@ == joined(lv.take(i as int), seq!['\n']),
        decreases lines.len() - i,
    {
        assert(lv.take(i + 1).drop_last() =~= lv.take(i as int));
        assert(lv.take(i + 1).last() == lines@[i as int]@);
        if i > 0 {
            out = concat_chars(&out, &nl);
        } else {
            assert(lv.take(1) =~= seq![lines@[0]@]);
        }
        out = concat_chars(&out, &lines[i]);
        i = i + 1;
    }
    assert(lv.take(lines.len() as int) =~= lv);
    string_of(&out)
}

/// Octal digits as text, for the pasting macro: each value in decimal.
pub fn render_octal(digits: &Vec<u8>) -> (r: String)
    ensures
        r@ == digits_text(digits@),
{
    let mut out: Vec<char> = Vec::new();
    let mut i: usize = 0;
    while i < digits.len()
        invariant
            i <= digits.len(),
            out@ == digits_text(digits@.take(i as int)),
        decreases digits.len() - i,
    {
        assert(digits@.take(i + 1).drop_last() =~= digits@.take(i as int));
        assert(digits@.take(i + 1).last() == digits@[i as int]);
        let d = to_decimal(digits[i] as usize);
        out = concat_chars(&out, &d);
        i = i + 1;
    }
    assert(digits@.take(digits.len() as int) =~= digits@);
    string_of(&out)
}

/// The dance table as text: each line followed by a separator line.
pub fn render_dance(lines: &Vec<String>) -> (r: String)
    ensures
        r@ == each_followed(lines.deep_view(), dance_separator()),
{
    let v = chars_of_all(lines);
    let ghost lv = chars_view(v@);
    let sep = chars_of("\n-----------------------------------------\n");
    let mut out: Vec<char> = Vec::new();
    let mut i: usize = 0;
    while i < v.len()
        invariant
            i <= v.len(),
            lv == chars_view(v@),
            sep@ == dance_separator(),
            out@ == each_followed(lv.take(i as int), dance_separator()),
        decreases v.len() - i,
    {
        assert(lv.take(i + 1).drop_last() =~= lv.take(i as int));
        assert(lv.take(i + 1).last() == v@[i as int]@);
        out = concat_chars(&out, &v[i]);
        out = concat_chars(&out, &sep);
        i = i + 1;
    }
    assert(lv.take(v.len() as int) =~= lv);
    string_of(&out)
}

} // verus!
