//! Settings that decide the input format, the title and the emitter
//! options.
use crate::codegen::CodegenOptions;
use crate::literal::{chars_are, string_from_chars};
use crate::text::chars_of;
use vstd::prelude::*;

verus! {

/// The format of the input data.
#[derive(Copy, Clone, Debug, PartialEq, Eq, Structural)]
pub enum InputData {
    Json,
    Csv,
}

/// The command-line settings that the inference reads. `input` is the
/// name (last path component) of the input file, if one was given.
pub struct Cli {
    pub input: Option<String>,
    pub input_format: Option<InputData>,
    pub title: Option<String>,
    pub delimiter: Option<char>,
    pub no_enum: bool,
    pub no_const: bool,
    pub enum_threshold: Option<u8>,
    pub enum_maximum: Option<u8>,
}

/// The last position of `c` in `s`, or -1.
pub open spec fn last_pos(s: Seq<char>, c: char) -> int
    decreases s.len(),
{
    if s.len() == 0 {
        -1
    } else if s.last() == c {
        s.len() - 1
    } else {
        last_pos(s.drop_last(), c)
    }
}

pub open spec fn format_of(ext: Seq<char>) -> Option<InputData> {
    if ext == "json"@ {
        Some(InputData::Json)
    } else if ext == "csv"@ {
        Some(InputData::Csv)
    } else {
        None
    }
}

/// A file name splits at its last point into a title and an extension,
/// provided no line break follows that point; the title starts after the
/// last line break. Without such a point the whole name is the title.
pub open spec fn infer_spec(s: Seq<char>) -> (Seq<char>, Option<InputData>) {
    let nl = last_pos(s, '\n');
    let d = last_pos(s, '.');
    if d > nl {
        (s.subrange(nl + 1, d), format_of(s.subrange(d + 1, s.len() as int)))
    } else {
        (s, None)
    }
}

proof fn lemma_last_pos(s: Seq<char>, c: char)
    ensures
        -1 <= last_pos(s, c) < s.len(),
    decreases s.len(),
{
    if s.len() > 0 {
        lemma_last_pos(s.drop_last(), c);
    }
}

fn last_index(v: &Vec<char>, c: char) -> (r: Option<usize>)
    ensures
        match r {
            Some(i) => i as int == last_pos(v@, c),
            None => last_pos(v@, c) == -1,
        },
{
    let mut i: usize = v.len();
    proof {
        assert(v@.subrange(0, v@.len() as int) =~= v@);
    }
    while i > 0 && v[i - 1] != c
        invariant
            i <= v.len(),
            last_pos(v@, c) == last_pos(v@.subrange(0, i as int), c),
        decreases i,
    {
        proof {
            assert(v@.subrange(0, i as int).drop_last() =~= v@.subrange(0, i - 1));
        }
        i -= 1;
    }
    proof {
        if i > 0 {
            assert(v@.subrange(0, i as int).last() == v@[i - 1]);
        }
    }
    if i == 0 {
        None
    } else {
        Some(i - 1)
    }
}

fn chars_between(v: &Vec<char>, a: usize, b: usize) -> (r: Vec<char>)
    requires
        a <= b <= v.len(),
    ensures
        r@ == v@.subrange(a as int, b as int),
{
    let mut out: Vec<char> = Vec::new();
    let mut i: usize = a;
    while i < b
        invariant
            a <= i <= b <= v.len(),
            out@ == v@.subrange(a as int, i as int),
        decreases b - i,
    {
        out.push(v[i]);
        i += 1;
    }
    out
}

impl InputData {
    /// The title and the format that a file name suggests.
    pub fn infer(file_name: &str) -> (r: (String, Option<Self>))
        ensures
            (r.0@, r.1) == infer_spec(file_name@),
    {
        let v = chars_of(file_name);
        proof {
            lemma_last_pos(v@, '\n');
            lemma_last_pos(v@, '.');
        }
        let start = match last_index(&v, '\n') {
            Some(n) => n + 1,
            None => 0,
        };
        let dot = match last_index(&v, '.') {
            Some(d) => {
                if d >= start {
                    Some(d)
                } else {
                    None
                }
            },
            None => None,
        };
        if let Some(d) = dot {
            let title = string_from_chars(&chars_between(&v, start, d));
            let ext = chars_between(&v, d + 1, v.len());
            let format = if chars_are(&ext, "json") {
                Some(InputData::Json)
            } else if chars_are(&ext, "csv") {
                Some(InputData::Csv)
            } else {
                None
            };
            (title, format)
        } else {
            (file_name.to_owned(), None)
        }
    }
}

/// The title given, else the one the input's file name suggests, if any.
pub fn resolve_title(cli: &Cli) -> (r: Option<String>)
    ensures
        match cli.title {
            Some(t) => r matches Some(x) && x@ == t@,
            None => match cli.input {
                Some(f) => r matches Some(x) && x@ == infer_spec(f@).0,
                None => r is None,
            },
        },
{
    if let Some(title) = &cli.title {
        Some(title.clone())
    } else if let Some(file_name) = &cli.input {
        let (title, _) = InputData::infer(file_name.as_str());
        Some(title)
    } else {
        None
    }
}

/// The format given, else the one the input's file name suggests, else
/// JSON.
pub fn resolve_format(cli: &Cli) -> (r: InputData)
    ensures
        r == match cli.input_format {
            Some(x) => x,
            None => match cli.input {
                Some(f) => match infer_spec(f@).1 {
                    Some(x) => x,
                    None => InputData::Json,
                },
                None => InputData::Json,
            },
        },
{
    let resolved = if let Some(input_format) = &cli.input_format {
        Some(*input_format)
    } else if let Some(file_name) = &cli.input {
        let (_, input_format) = InputData::infer(file_name.as_str());
        input_format
    } else {
        None
    };
    match resolved {
        Some(x) => x,
        None => InputData::Json,
    }
}

/// The emitter options that the settings ask for, with the given title.
pub fn output_options(cli: &Cli, title: Option<String>) -> (r: CodegenOptions)
    ensures
        r.title == title,
        r.use_enum == cli.no_enum,
        r.use_const == cli.no_const,
        r.enum_threshold == match cli.enum_threshold {
            Some(n) => n,
            None => 1,
        },
        r.enum_maximum == cli.enum_maximum,
{
    let mut options = CodegenOptions::new();
    options.title = title;
    options.use_enum = cli.no_enum;
    options.use_const = cli.no_const;
    if let Some(n) = cli.enum_threshold {
        options.enum_threshold = n;
    }
    options.enum_maximum = cli.enum_maximum;
    options
}

} // verus!
