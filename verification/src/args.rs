//! Arguments for compilation and rendering: the world, process, package and
//! font argument groups, input/output selection, and the verified parsers
//! for page ranges and key/value pairs.

use vstd::prelude::*;

use crate::text::{
    count_char, first_index, is_uint_str, lemma_first_index_at, parse_usize, trim, trimmed,
    uint_val,
};

verus! {

#[verifier::external_type_specification]
#[verifier::external_body]
pub struct ExPathBuf(std::path::PathBuf);

/// Relies on std::path::PathBuf::clone to produce an equal owned path; the
/// derived clones of the argument types go through it.
pub assume_specification[ <std::path::PathBuf as Clone>::clone ](
    p: &std::path::PathBuf,
) -> std::path::PathBuf;

/// Relies on std::path::PathBuf::from to build a path from a string; the
/// path is carried through opaquely.
#[verifier::external_body]
pub fn path_from_str(s: &str) -> std::path::PathBuf {
    std::path::PathBuf::from(s)
}

/// Relies on std::path::Path::display to render a path for people; the
/// rendering is carried through opaquely.
#[verifier::external_body]
pub fn path_display(p: &std::path::PathBuf) -> String {
    p.display().to_string()
}

/// An input that is either stdin or a real path.
#[derive(Debug, Clone)]
pub enum Input {
    /// Stdin, represented by `-`.
    Stdin,
    /// A non-empty path.
    Path(std::path::PathBuf),
}

impl Input {
    /// The display form: `stdin` for the stdin variant, the path's own
    /// display otherwise.
    pub fn to_display_string(&self) -> (r: String)
        ensures
            self is Stdin ==> r@ == "stdin"@,
    {
        match self {
            Input::Stdin => String::from_str("stdin"),
            Input::Path(path) => path_display(path),
        }
    }
}

/// An output that is either stdout or a real path.
#[derive(Debug, Clone)]
pub enum Output {
    /// Stdout, represented by `-`.
    Stdout,
    /// A non-empty path.
    Path(std::path::PathBuf),
}

impl Output {
    /// The display form: `stdout` for the stdout variant, the path's own
    /// display otherwise.
    pub fn to_display_string(&self) -> (r: String)
        ensures
            self is Stdout ==> r@ == "stdout"@,
    {
        match self {
            Output::Stdout => String::from_str("stdout"),
            Output::Path(path) => path_display(path),
        }
    }
}

/// Which format to use for the generated output file.
#[derive(Debug, Copy, Clone, Eq, PartialEq, Ord, PartialOrd)]
pub enum OutputFormat {
    Pdf,
    Png,
    Svg,
    Html,
}

/// Which format to use for diagnostics.
#[derive(Debug, Copy, Clone, Eq, PartialEq, Ord, PartialOrd)]
pub enum DiagnosticFormat {
    Human,
    Short,
}

impl core::default::Default for DiagnosticFormat {
    fn default() -> (d: Self)
        ensures
            d is Human,
    {
        DiagnosticFormat::Human
    }
}

/// An in-development feature that may be changed or removed at any time.
#[derive(Debug, Copy, Clone, Eq, PartialEq)]
pub enum Feature {
    Html,
}

/// Output file format for the query form of the process.
#[derive(Debug, Copy, Clone, Eq, PartialEq)]
pub enum SerializationFormat {
    Json,
    Yaml,
}

impl core::default::Default for SerializationFormat {
    fn default() -> (d: Self)
        ensures
            d is Json,
    {
        SerializationFormat::Json
    }
}

/// Common arguments to customize available fonts.
#[derive(Debug, Clone)]
pub struct FontArgs {
    /// Additional directories that are recursively searched for fonts.
    pub font_paths: Vec<std::path::PathBuf>,

    /// Ensures system fonts won't be searched, unless explicitly included.
    pub ignore_system_fonts: bool,
}

impl core::default::Default for FontArgs {
    fn default() -> (d: Self)
        ensures
            d.font_paths@.len() == 0,
            !d.ignore_system_fonts,
    {
        FontArgs { font_paths: Vec::new(), ignore_system_fonts: false }
    }
}

/// Arguments related to where packages are stored in the system.
#[derive(Debug, Clone)]
pub struct PackageArgs {
    /// Custom path to local packages, defaults to system-dependent location.
    pub package_path: Option<std::path::PathBuf>,

    /// Custom path to package cache, defaults to system-dependent location.
    pub package_cache_path: Option<std::path::PathBuf>,
}

impl core::default::Default for PackageArgs {
    fn default() -> (d: Self)
        ensures
            d.package_path is None,
            d.package_cache_path is None,
    {
        PackageArgs { package_path: None, package_cache_path: None }
    }
}

/// Arguments for configuring the process of compilation itself.
#[derive(Debug, Clone)]
pub struct ProcessArgs {
    /// Number of parallel jobs spawned during compilation. Defaults to the
    /// number of CPUs; one disables parallelism.
    pub jobs: Option<usize>,

    /// Enables in-development features that may change at any time.
    pub features: Vec<Feature>,

    /// The format to emit diagnostics in.
    pub diagnostic_format: DiagnosticFormat,
}

impl core::default::Default for ProcessArgs {
    fn default() -> (d: Self)
        ensures
            d.jobs is None,
            d.features@.len() == 0,
            d.diagnostic_format is Human,
    {
        ProcessArgs {
            jobs: None,
            features: Vec::new(),
            diagnostic_format: DiagnosticFormat::Human,
        }
    }
}

/// Arguments for the construction of a world, shared by compilation,
/// watching, and querying.
#[derive(Debug, Clone)]
pub struct WorldArgs {
    /// Configures the project root, for absolute paths.
    pub root: Option<std::path::PathBuf>,

    /// String key-value pairs visible through the system inputs.
    pub inputs: Vec<(String, String)>,

    /// Common font arguments.
    pub font: FontArgs,

    /// Arguments related to storage of packages in the system.
    pub package: PackageArgs,
}

impl core::default::Default for WorldArgs {
    fn default() -> (d: Self)
        ensures
            d.root is None,
            d.inputs@.len() == 0,
            d.font.font_paths@.len() == 0,
            !d.font.ignore_system_fonts,
            d.package.package_path is None,
            d.package.package_cache_path is None,
    {
        WorldArgs {
            root: None,
            inputs: Vec::new(),
            font: FontArgs::default(),
            package: PackageArgs::default(),
        }
    }
}

/// What parsing one page number yields: pages count from one, `0` is called
/// out on its own, and anything that is not a page number is rejected.
pub open spec fn page_result(s: Seq<char>) -> Result<int, Seq<char>> {
    if s == seq!['0'] {
        Err("page numbers start at one"@)
    } else if is_uint_str(s) && 1 <= uint_val(s) && uint_val(s) <= usize::MAX {
        Ok(uint_val(s))
    } else {
        Err("not a valid page number"@)
    }
}

/// Parses a single page number.
pub fn parse_page_number(value: &str) -> (r: Result<usize, &'static str>)
    ensures
        match r {
            Ok(n) => page_result(value@) == Ok::<int, Seq<char>>(n as int),
            Err(e) => page_result(value@) matches Err(m) && e@ == m,
        },
{
    let n = value.unicode_len();
    if n == 1 && value.get_char(0) == '0' {
        proof {
            assert(value@ =~= seq!['0']);
        }
        return Err("page numbers start at one");
    }
    proof {
        assert(value@ != seq!['0']) by {
            if value@ == seq!['0'] {
                assert(value@.len() == 1);
                assert(value@[0] == '0');
            }
        }
    }
    match parse_usize(value) {
        Some(p) => {
            if p == 0 {
                Err("not a valid page number")
            } else {
                Ok(p)
            }
        },
        None => Err("not a valid page number"),
    }
}

/// A page export range: an optional first and an optional last page, at
/// least one of them given.
#[derive(Debug, Clone, PartialEq, Eq)]
pub struct Pages {
    /// The first page of the range, counted from one; none means from the
    /// beginning of the document.
    pub start: Option<usize>,

    /// The last page of the range, counted from one; none means to the end
    /// of the document.
    pub end: Option<usize>,
}

/// What parsing a page-range string yields: the string is split on the
/// hyphens, the parts are trimmed, and each nonempty part is read as a page
/// number.
pub open spec fn pages_result(s: Seq<char>) -> Result<Pages, Seq<char>> {
    let hyphens = count_char(s, '-');
    if hyphens == 0 {
        let whole = trimmed(s);
        if whole.len() == 0 {
            Err("page export range must not be empty"@)
        } else {
            match page_result(whole) {
                Ok(p) => Ok(Pages { start: Some(p as usize), end: Some(p as usize) }),
                Err(e) => Err(e),
            }
        }
    } else if hyphens >= 2 {
        Err("page export range must have a single hyphen"@)
    } else {
        let cut = first_index(s, '-');
        let left = trimmed(s.take(cut));
        let right = trimmed(s.skip(cut + 1));
        if left.len() == 0 && right.len() == 0 {
            Err("page export range must have start or end"@)
        } else if right.len() == 0 {
            match page_result(left) {
                Ok(p) => Ok(Pages { start: Some(p as usize), end: None }),
                Err(e) => Err(e),
            }
        } else if left.len() == 0 {
            match page_result(right) {
                Ok(p) => Ok(Pages { start: None, end: Some(p as usize) }),
                Err(e) => Err(e),
            }
        } else {
            match (page_result(left), page_result(right)) {
                (Ok(p), Ok(q)) => if p > q {
                    Err("page export range must end at a page after the start"@)
                } else {
                    Ok(Pages { start: Some(p as usize), end: Some(q as usize) })
                },
                (Err(e), _) => Err(e),
                (Ok(p), Err(e)) => Err(e),
            }
        }
    }
}

impl Pages {
    /// A well-formed range: pages count from one, and a bounded range ends
    /// no earlier than it starts.
    pub open spec fn wf(&self) -> bool {
        &&& (self.start matches Some(s) ==> s >= 1)
        &&& (self.end matches Some(e) ==> e >= 1)
        &&& (self.start matches Some(s) ==> (self.end matches Some(e) ==> s <= e))
        &&& !(self.start is None && self.end is None)
    }

    /// Parses a page range (`1-3`, `4`, `5-`, `-2`): the parts around one
    /// hyphen are trimmed and read as page numbers.
    pub fn from_str(value: &str) -> (r: Result<Pages, &'static str>)
        ensures
            match r {
                Ok(p) => pages_result(value@) == Ok::<Pages, Seq<char>>(p) && p.wf(),
                Err(e) => pages_result(value@) matches Err(m) && e@ == m,
            },
    {
        let n = value.unicode_len();
        let mut hyphens: usize = 0;
        let mut cut: usize = n;
        let mut i: usize = 0;
        proof {
            assert(value@.take(0) =~= Seq::<char>::empty());
        }
        while i < n
            invariant
                0 <= i <= n,
                n == value@.len(),
                hyphens <= i,
                hyphens == count_char(value@.take(i as int), '-'),
                hyphens == 0 ==> cut == n && forall|j: int| 0 <= j < i ==> value@[j] != '-',
                hyphens > 0 ==> 0 <= cut < i && value@[cut as int] == '-' && forall|j: int|
                    0 <= j < cut ==> value@[j] != '-',
            decreases n - i,
        {
            let c = value.get_char(i);
            proof {
                assert(value@.take(i as int + 1).drop_last() =~= value@.take(i as int));
                assert(value@.take(i as int + 1).last() == value@[i as int]);
                crate::text::lemma_count_char_nonneg(value@.take(i as int), '-');
            }
            if c == '-' {
                if hyphens == 0 {
                    cut = i;
                }
                hyphens = hyphens + 1;
            }
            i = i + 1;
        }
        proof {
            assert(value@.take(n as int) =~= value@);
            if hyphens == 1 {
                lemma_first_index_at(value@, '-', cut as int);
            }
        }
        if hyphens == 0 {
            let whole = trim(value);
            if whole.unicode_len() == 0 {
                return Err("page export range must not be empty");
            }
            match parse_page_number(whole) {
                Ok(p) => Ok(Pages { start: Some(p), end: Some(p) }),
                Err(e) => Err(e),
            }
        } else if hyphens >= 2 {
            Err("page export range must have a single hyphen")
        } else {
            let left_raw = value.substring_char(0, cut);
            let right_raw = value.substring_char(cut + 1, n);
            proof {
                assert(left_raw@ =~= value@.take(cut as int));
                assert(right_raw@ =~= value@.skip(cut as int + 1));
            }
            let left = trim(left_raw);
            let right = trim(right_raw);
            if left.unicode_len() == 0 && right.unicode_len() == 0 {
                Err("page export range must have start or end")
            } else if right.unicode_len() == 0 {
                match parse_page_number(left) {
                    Ok(p) => Ok(Pages { start: Some(p), end: None }),
                    Err(e) => Err(e),
                }
            } else if left.unicode_len() == 0 {
                match parse_page_number(right) {
                    Ok(p) => Ok(Pages { start: None, end: Some(p) }),
                    Err(e) => Err(e),
                }
            } else {
                match parse_page_number(left) {
                    Err(e) => Err(e),
                    Ok(p) => match parse_page_number(right) {
                        Err(e) => Err(e),
                        Ok(q) => {
                            if p > q {
                                Err("page export range must end at a page after the start")
                            } else {
                                Ok(Pages { start: Some(p), end: Some(q) })
                            }
                        },
                    },
                }
            }
        }
    }
}

/// Parses a key/value pair split at the first equals sign; both halves are
/// trimmed, and the key must not be empty.
pub fn parse_sys_input_pair(raw: &str) -> (r: Result<(String, String), String>)
    ensures
        match r {
            Ok(kv) => count_char(raw@, '=') > 0 && kv.0@ == trimmed(
                raw@.take(first_index(raw@, '=')),
            ) && kv.1@ == trimmed(raw@.skip(first_index(raw@, '=') + 1)) && kv.0@.len() > 0,
            Err(e) => (count_char(raw@, '=') == 0 && e@
                == "input must be a key and a value separated by an equal sign"@) || (count_char(
                raw@,
                '=',
            ) > 0 && trimmed(raw@.take(first_index(raw@, '='))).len() == 0 && e@
                == "the key was missing or empty"@),
        },
{
    let n = raw.unicode_len();
    let mut i: usize = 0;
    proof {
        assert(raw@.take(0) =~= Seq::<char>::empty());
    }
    while i < n
        invariant
            0 <= i <= n,
            n == raw@.len(),
            count_char(raw@.take(i as int), '=') == 0,
            forall|j: int| 0 <= j < i ==> raw@[j] != '=',
        decreases n - i,
    {
        let c = raw.get_char(i);
        if c == '=' {
            proof {
                lemma_first_index_at(raw@, '=', i as int);
                crate::text::lemma_count_char_positive(raw@, '=', i as int);
            }
            let key_raw = raw.substring_char(0, i);
            let val_raw = raw.substring_char(i + 1, n);
            proof {
                assert(key_raw@ =~= raw@.take(i as int));
                assert(val_raw@ =~= raw@.skip(i as int + 1));
            }
            let key = trim(key_raw);
            if key.unicode_len() == 0 {
                return Err(String::from_str("the key was missing or empty"));
            }
            let val = trim(val_raw);
            return Ok((String::from_str(key), String::from_str(val)));
        }
        proof {
            assert(raw@.take(i as int + 1).drop_last() =~= raw@.take(i as int));
            assert(raw@.take(i as int + 1).last() == raw@[i as int]);
        }
        i = i + 1;
    }
    proof {
        assert(raw@.take(n as int) =~= raw@);
    }
    Err(String::from_str("input must be a key and a value separated by an equal sign"))
}

} // verus!
