//! How the validator compiles a program.
use vstd::prelude::*;
use crate::text::push_ascii;

verus! {

/// The outcome of one compilation.
#[derive(Debug)]
pub struct CompilationResult {
    pub success: bool,
    /// Where the program was written, when it compiled.
    pub binary_path: Option<String>,
    pub stderr: String,
    pub exit_code: Option<i32>,
}

/// The compiler, its flags and its include directories.
#[derive(Debug, Clone)]
pub struct CompilerConfig {
    pub compiler: String,
    pub flags: Vec<String>,
    pub include_paths: Vec<String>,
}

/// A string made of the ASCII text `t`.
fn ascii_string(t: &str) -> (r: String)
    requires
        vstd::utf8::is_ascii_chars(t@),
    ensures
        r@ == t@,
{
    let mut r = String::new();
    push_ascii(&mut r, t);
    proof {
        vstd::utf8::is_ascii_chars_encode_utf8(t@);
        vstd::utf8::encode_utf8_decode_utf8(r@);
        vstd::utf8::encode_utf8_decode_utf8(t@);
    }
    r
}

/// The views of a list of strings.
pub open spec fn string_views(v: Seq<String>) -> Seq<Seq<char>> {
    v.map_values(|s: String| s@)
}

proof fn lemma_views_push(v: Seq<String>, x: String)
    ensures
        string_views(v.push(x)) == string_views(v).push(x@),
{
    assert(string_views(v.push(x)) =~= string_views(v).push(x@));
}

/// The flags coverage needs.
pub open spec fn coverage_flags() -> Seq<Seq<char>> {
    seq!["--coverage"@, "-fprofile-arcs"@, "-ftest-coverage"@]
}

impl Default for CompilerConfig {
    /// `gcc -w`, with no include directories.
    fn default() -> (c: CompilerConfig)
        ensures
            c.compiler@ == "gcc"@,
            string_views(c.flags@) == seq!["-w"@],
            c.include_paths@.len() == 0,
    {
        let gcc = "gcc";
        let w = "-w";
        proof {
            reveal_strlit("gcc");
            reveal_strlit("-w");
        }
        let mut flags: Vec<String> = Vec::new();
        flags.push(ascii_string(w));
        let c = CompilerConfig { compiler: ascii_string(gcc), flags, include_paths: Vec::new() };
        proof {
            assert(string_views(c.flags@) =~= seq!["-w"@]);
        }
        c
    }
}

impl CompilerConfig {
    /// Adds one flag.
    pub fn with_flag(self, flag: String) -> (c: CompilerConfig)
        ensures
            c.compiler == self.compiler,
            c.flags@ == self.flags@.push(flag),
            c.include_paths@ == self.include_paths@,
    {
        let mut c = self;
        c.flags.push(flag);
        c
    }

    /// Adds flags, in order.
    pub fn with_flags(self, flags: Vec<String>) -> (c: CompilerConfig)
        ensures
            c.compiler == self.compiler,
            c.flags@ == self.flags@ + flags@,
            c.include_paths@ == self.include_paths@,
    {
        let mut c = self;
        let mut extra = flags;
        c.flags.append(&mut extra);
        c
    }

    /// Adds an include directory.
    pub fn with_include(self, path: String) -> (c: CompilerConfig)
        ensures
            c.compiler == self.compiler,
            c.flags@ == self.flags@,
            c.include_paths@ == self.include_paths@.push(path),
    {
        let mut c = self;
        c.include_paths.push(path);
        c
    }

    /// Adds the flags that make a build record coverage.
    pub fn with_coverage(self) -> (c: CompilerConfig)
        ensures
            c.compiler == self.compiler,
            string_views(c.flags@) == string_views(self.flags@) + coverage_flags(),
            c.include_paths@ == self.include_paths@,
    {
        let a = "--coverage";
        let b = "-fprofile-arcs";
        let d = "-ftest-coverage";
        proof {
            reveal_strlit("--coverage");
            reveal_strlit("-fprofile-arcs");
            reveal_strlit("-ftest-coverage");
        }
        let mut extra: Vec<String> = Vec::new();
        extra.push(ascii_string(a));
        extra.push(ascii_string(b));
        extra.push(ascii_string(d));
        let c = self.with_flags(extra);
        proof {
            assert(string_views(c.flags@) =~= string_views(self.flags@) + coverage_flags());
        }
        c
    }
}

/// The arguments the compiler runs with: the source, `-o` and the output,
/// the flags, then `-I` and each include directory.
pub open spec fn compile_args_of(c: CompilerConfig, source_path: Seq<char>, output_path: Seq<char>) -> Seq<Seq<char>> {
    seq![source_path, "-o"@, output_path] + string_views(c.flags@) + include_args(string_views(c.include_paths@))
}

/// `-I` before each directory.
pub open spec fn include_args(dirs: Seq<Seq<char>>) -> Seq<Seq<char>>
    decreases dirs.len(),
{
    if dirs.len() == 0 {
        seq![]
    } else {
        include_args(dirs.drop_last()) + seq!["-I"@, dirs.last()]
    }
}

/// The compiler's arguments for building `source_path` into `output_path`
/// (see `compile_args_of`).
pub fn compile_args(config: &CompilerConfig, source_path: &str, output_path: &str) -> (r: Vec<String>)
    ensures
        string_views(r@) == compile_args_of(*config, source_path@, output_path@),
{
    let o = "-o";
    let i = "-I";
    proof {
        reveal_strlit("-o");
        reveal_strlit("-I");
        assert(vstd::utf8::is_ascii_chars(i@));
    }
    let mut r: Vec<String> = Vec::new();
    r.push(source_path.to_owned());
    r.push(ascii_string(o));
    r.push(output_path.to_owned());
    let ghost base = string_views(r@);
    proof {
        assert(base =~= seq![source_path@, "-o"@, output_path@]);
    }
    let mut k: usize = 0;
    while k < config.flags.len()
        invariant
            k <= config.flags@.len(),
            string_views(r@) == base + string_views(config.flags@).subrange(0, k as int),
        decreases config.flags.len() - k,
    {
        let ghost before = r@;
        let f = config.flags[k].clone();
        r.push(f);
        proof {
            lemma_views_push(before, f);
            assert(string_views(config.flags@)[k as int] == config.flags@[k as int]@);
            assert(string_views(r@) =~= base + string_views(config.flags@).subrange(0, k + 1));
        }
        k += 1;
    }
    let ghost with_flags = string_views(r@);
    proof {
        assert(string_views(config.flags@).subrange(0, k as int) =~= string_views(config.flags@));
    }
    let ghost dirs = string_views(config.include_paths@);
    let mut j: usize = 0;
    proof {
        assert(dirs.subrange(0, 0) =~= Seq::<Seq<char>>::empty());
        assert(with_flags + include_args(dirs.subrange(0, 0)) =~= with_flags);
    }
    while j < config.include_paths.len()
        invariant
            j <= config.include_paths@.len(),
            dirs == string_views(config.include_paths@),
            vstd::utf8::is_ascii_chars(i@),
            i@ == "-I"@,
            string_views(r@) == with_flags + include_args(dirs.subrange(0, j as int)),
        decreases config.include_paths.len() - j,
    {
        let ghost before = r@;
        let flag = ascii_string(i);
        r.push(flag);
        let d = config.include_paths[j].clone();
        r.push(d);
        proof {
            lemma_views_push(before, flag);
            lemma_views_push(before.push(flag), d);
            assert(dirs[j as int] == config.include_paths@[j as int]@);
            let next = dirs.subrange(0, j + 1);
            assert(next.drop_last() =~= dirs.subrange(0, j as int));
            assert(string_views(r@) =~= with_flags + include_args(next));
        }
        j += 1;
    }
    proof {
        assert(dirs.subrange(0, j as int) =~= dirs);
    }
    r
}

} // verus!
