//! Pipeline configuration.
use vstd::prelude::*;
use crate::text::{str_eq, push_ascii};

verus! {

/// How aggressively the pipeline reduces.
#[derive(Debug, Clone, Copy, PartialEq, Eq)]
pub enum Policy {
    /// Maximum reduction.
    Aggressive,
    /// More cautious reduction.
    Conservative,
}

impl Default for Policy {
    fn default() -> (p: Policy)
        ensures
            p == Policy::Aggressive,
    {
        Policy::Aggressive
    }
}

/// The compiler the pipeline runs, and how.
#[derive(Debug, Clone)]
pub struct CompilerConfig {
    pub name: String,
    pub flags: Vec<String>,
    pub timeout_secs: u64,
}

/// A string made of the ASCII text `t`.
fn ascii_string(t: &str) -> (r: String)
    requires
        vstd::utf8::is_ascii_chars(t@),
    ensures
        r@ == t@,
{
    let mut r = String::new();
    push_ascii(&mut r, t);
    proof {
        vstd::utf8::is_ascii_chars_encode_utf8(t@);
        vstd::utf8::encode_utf8_decode_utf8(r@);
        vstd::utf8::encode_utf8_decode_utf8(t@);
        assert(r@ == vstd::utf8::decode_utf8(vstd::utf8::encode_utf8(r@)));
    }
    r
}

/// The default compiler's name, `gcc`.
pub fn default_compiler() -> (r: String)
    ensures
        r@ == "gcc"@,
{
    let t = "gcc";
    proof {
        reveal_strlit("gcc");
    }
    ascii_string(t)
}

/// The default compile timeout, 10 seconds.
pub fn default_timeout() -> (r: u64)
    ensures
        r == 10,
{
    10
}

/// `true`, the default of the coverage switch.
pub fn default_true() -> (r: bool)
    ensures
        r,
{
    true
}

/// The default coverage timeout, 30 seconds.
pub fn default_coverage_timeout() -> (r: u64)
    ensures
        r == 30,
{
    30
}

/// The default number of rounds, 20.
pub fn default_max_iterations() -> (r: u32)
    ensures
        r == 20,
{
    20
}

impl Default for CompilerConfig {
    /// `gcc` with `-O0 -w` and a 10 second timeout.
    fn default() -> (c: CompilerConfig)
        ensures
            c.name@ == "gcc"@,
            c.flags@.len() == 2,
            c.flags@[0]@ == "-O0"@,
            c.flags@[1]@ == "-w"@,
            c.timeout_secs == 10,
    {
        let o0 = "-O0";
        let w = "-w";
        proof {
            reveal_strlit("-O0");
            reveal_strlit("-w");
        }
        let mut flags: Vec<String> = Vec::new();
        flags.push(ascii_string(o0));
        flags.push(ascii_string(w));
        CompilerConfig { name: default_compiler(), flags, timeout_secs: default_timeout() }
    }
}

/// Whether and how long coverage is collected.
#[derive(Debug, Clone)]
pub struct CoverageConfig {
    pub enabled: bool,
    pub timeout_secs: u64,
}

impl Default for CoverageConfig {
    /// Enabled, with a 30 second timeout.
    fn default() -> (c: CoverageConfig)
        ensures
            c.enabled,
            c.timeout_secs == 30,
    {
        CoverageConfig { enabled: default_true(), timeout_secs: default_coverage_timeout() }
    }
}

/// The whole configuration of a reduction.
#[derive(Debug, Clone)]
pub struct PipelineConfig {
    pub policy: Policy,
    pub max_iterations: u32,
    pub convergence_threshold: u32,
    /// 0 for no limit.
    pub total_timeout_secs: u64,
    pub compiler: CompilerConfig,
    pub coverage: CoverageConfig,
    /// When set, only these passes run.
    pub enabled_passes: Option<Vec<String>>,
    pub disabled_passes: Vec<String>,
    pub verbose: bool,
}

/// `c` is the default configuration: aggressive, 20 rounds, no
/// convergence threshold or time limit, `gcc -O0 -w` with a 10 second
/// timeout, coverage enabled with a 30 second timeout, every pass enabled,
/// not verbose.
pub open spec fn is_default_config(c: PipelineConfig) -> bool {
    &&& c.policy == Policy::Aggressive
    &&& c.max_iterations == 20
    &&& c.convergence_threshold == 0
    &&& c.total_timeout_secs == 0
    &&& c.compiler.name@ == "gcc"@
    &&& c.compiler.flags@.len() == 2
    &&& c.compiler.flags@[0]@ == "-O0"@
    &&& c.compiler.flags@[1]@ == "-w"@
    &&& c.compiler.timeout_secs == 10
    &&& c.coverage.enabled
    &&& c.coverage.timeout_secs == 30
    &&& c.enabled_passes is None
    &&& c.disabled_passes@.len() == 0
    &&& !c.verbose
}

impl Default for PipelineConfig {
    /// Aggressive, 20 rounds, no time limit, the default compiler and
    /// coverage, every pass enabled.
    fn default() -> (c: PipelineConfig)
        ensures
            is_default_config(c),
    {
        PipelineConfig {
            policy: Policy::Aggressive,
            max_iterations: default_max_iterations(),
            convergence_threshold: 0,
            total_timeout_secs: 0,
            compiler: CompilerConfig::default(),
            coverage: CoverageConfig::default(),
            enabled_passes: None,
            disabled_passes: Vec::new(),
            verbose: false,
        }
    }
}

/// `names` holds `name`.
pub open spec fn lists(names: Seq<String>, name: Seq<char>) -> bool {
    exists|i: int| 0 <= i < names.len() && (#[trigger] names[i])@ == name
}

/// A pass runs when it is not disabled and, if an enabled list is given,
/// that list names it.
pub open spec fn pass_enabled(c: PipelineConfig, name: Seq<char>) -> bool {
    !lists(c.disabled_passes@, name) && match c.enabled_passes {
        Some(enabled) => lists(enabled@, name),
        None => true,
    }
}

fn any_named(names: &Vec<String>, name: &str) -> (r: bool)
    ensures
        r == lists(names@, name@),
{
    let mut i: usize = 0;
    while i < names.len()
        invariant
            i <= names@.len(),
            forall|k: int| 0 <= k < i ==> (#[trigger] names@[k])@ != name@,
        decreases names.len() - i,
    {
        if str_eq(names[i].as_str(), name) {
            return true;
        }
        i += 1;
    }
    false
}

impl PipelineConfig {
    /// A builder that starts from the default configuration.
    pub fn builder() -> (b: PipelineConfigBuilder)
        ensures
            is_default_config(b.config),
    {
        PipelineConfigBuilder::default()
    }

    /// Whether the pass called `name` runs (see `pass_enabled`).
    pub fn is_pass_enabled(&self, name: &str) -> (r: bool)
        ensures
            r == pass_enabled(*self, name@),
    {
        if any_named(&self.disabled_passes, name) {
            return false;
        }
        match &self.enabled_passes {
            Some(enabled) => any_named(enabled, name),
            None => true,
        }
    }
}

/// Builds a `PipelineConfig` step by step.
#[derive(Debug)]
pub struct PipelineConfigBuilder {
    pub config: PipelineConfig,
}

impl Default for PipelineConfigBuilder {
    fn default() -> (b: PipelineConfigBuilder)
        ensures
            is_default_config(b.config),
    {
        PipelineConfigBuilder { config: PipelineConfig::default() }
    }
}

impl PipelineConfigBuilder {
    pub fn policy(self, policy: Policy) -> (b: PipelineConfigBuilder)
        ensures
            b.config == (PipelineConfig { policy, ..self.config }),
    {
        let mut b = self;
        b.config.policy = policy;
        b
    }

    pub fn max_iterations(self, n: u32) -> (b: PipelineConfigBuilder)
        ensures
            b.config == (PipelineConfig { max_iterations: n, ..self.config }),
    {
        let mut b = self;
        b.config.max_iterations = n;
        b
    }

    pub fn compiler(self, compiler: CompilerConfig) -> (b: PipelineConfigBuilder)
        ensures
            b.config == (PipelineConfig { compiler, ..self.config }),
    {
        let mut b = self;
        b.config.compiler = compiler;
        b
    }

    pub fn disabled_passes(self, passes: Vec<String>) -> (b: PipelineConfigBuilder)
        ensures
            b.config == (PipelineConfig { disabled_passes: passes, ..self.config }),
    {
        let mut b = self;
        b.config.disabled_passes = passes;
        b
    }

    pub fn total_timeout_secs(self, secs: u64) -> (b: PipelineConfigBuilder)
        ensures
            b.config == (PipelineConfig { total_timeout_secs: secs, ..self.config }),
    {
        let mut b = self;
        b.config.total_timeout_secs = secs;
        b
    }

    pub fn build(self) -> (c: PipelineConfig)
        ensures
            c == self.config,
    {
        self.config
    }
}

/// A pass that is disabled does not run, whatever the enabled list says.
pub proof fn disabled_pass_never_runs(c: PipelineConfig, name: Seq<char>)
    requires
        lists(c.disabled_passes@, name),
    ensures
        !pass_enabled(c, name),
{
}

/// Without an enabled list, a pass runs exactly when it is not disabled.
pub proof fn passes_run_unless_disabled(c: PipelineConfig, name: Seq<char>)
    requires
        c.enabled_passes is None,
    ensures
        pass_enabled(c, name) <==> !lists(c.disabled_passes@, name),
{
}

} // verus!
