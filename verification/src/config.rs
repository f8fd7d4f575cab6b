//! The settings of a run, as given on the command line.

use crate::grid::hexagon_size;
use crate::number::{
    parse_i32, parse_sizes, parse_unsigned, parse_usize, same_text, signed_number, size_list, unsigned_number,
    NumberError,
};
use crate::shapes::{lacks_keys, shapes_suffice};
use crate::trial_decoys::{lemma_size_sum_grows, size_sum};
use vstd::prelude::*;

verus! {

/// The options of the command line.
#[derive(Clone, Copy, Debug, PartialEq, Eq, Structural)]
pub enum OptionName {
    Seed,
    Trials,
    Side,
    TotalAlphabet,
    TrueAlphabet,
    CoreAlphabet,
    AnchorRatio,
    FalseFlat,
    FalseAttach,
    MaxUNodes,
    MaxFNodes,
    FalseCount,
    FalseClusters,
    DumpSvgs,
    SvgDir,
    RotEquiv,
    KillReflection,
    Help,
}

/// The option that an argument names.
pub open spec fn named_option(arg: Seq<char>) -> Option<OptionName> {
    if arg == "--seed"@ {
        Some(OptionName::Seed)
    } else if arg == "--trials"@ {
        Some(OptionName::Trials)
    } else if arg == "--side"@ {
        Some(OptionName::Side)
    } else if arg == "--total-alphabet"@ {
        Some(OptionName::TotalAlphabet)
    } else if arg == "--true-alphabet"@ {
        Some(OptionName::TrueAlphabet)
    } else if arg == "--core-alphabet"@ {
        Some(OptionName::CoreAlphabet)
    } else if arg == "--anchor-ratio"@ {
        Some(OptionName::AnchorRatio)
    } else if arg == "--false-flat"@ {
        Some(OptionName::FalseFlat)
    } else if arg == "--false-attach"@ {
        Some(OptionName::FalseAttach)
    } else if arg == "--max-u-nodes"@ {
        Some(OptionName::MaxUNodes)
    } else if arg == "--max-f-nodes"@ {
        Some(OptionName::MaxFNodes)
    } else if arg == "--false-count"@ {
        Some(OptionName::FalseCount)
    } else if arg == "--false-clusters"@ {
        Some(OptionName::FalseClusters)
    } else if arg == "--dump-svgs"@ {
        Some(OptionName::DumpSvgs)
    } else if arg == "--svg-dir"@ {
        Some(OptionName::SvgDir)
    } else if arg == "--rot-equiv"@ {
        Some(OptionName::RotEquiv)
    } else if arg == "--kill-reflection"@ {
        Some(OptionName::KillReflection)
    } else if arg == "--help"@ {
        Some(OptionName::Help)
    } else {
        None
    }
}

pub fn option_name(arg: &str) -> (name: Option<OptionName>)
    ensures
        name == named_option(arg@),
{
    if same_text(arg, "--seed") {
        Some(OptionName::Seed)
    } else if same_text(arg, "--trials") {
        Some(OptionName::Trials)
    } else if same_text(arg, "--side") {
        Some(OptionName::Side)
    } else if same_text(arg, "--total-alphabet") {
        Some(OptionName::TotalAlphabet)
    } else if same_text(arg, "--true-alphabet") {
        Some(OptionName::TrueAlphabet)
    } else if same_text(arg, "--core-alphabet") {
        Some(OptionName::CoreAlphabet)
    } else if same_text(arg, "--anchor-ratio") {
        Some(OptionName::AnchorRatio)
    } else if same_text(arg, "--false-flat") {
        Some(OptionName::FalseFlat)
    } else if same_text(arg, "--false-attach") {
        Some(OptionName::FalseAttach)
    } else if same_text(arg, "--max-u-nodes") {
        Some(OptionName::MaxUNodes)
    } else if same_text(arg, "--max-f-nodes") {
        Some(OptionName::MaxFNodes)
    } else if same_text(arg, "--false-count") {
        Some(OptionName::FalseCount)
    } else if same_text(arg, "--false-clusters") {
        Some(OptionName::FalseClusters)
    } else if same_text(arg, "--dump-svgs") {
        Some(OptionName::DumpSvgs)
    } else if same_text(arg, "--svg-dir") {
        Some(OptionName::SvgDir)
    } else if same_text(arg, "--rot-equiv") {
        Some(OptionName::RotEquiv)
    } else if same_text(arg, "--kill-reflection") {
        Some(OptionName::KillReflection)
    } else if same_text(arg, "--help") {
        Some(OptionName::Help)
    } else {
        None
    }
}

/// A ratio as the caller holds it: its bits, and whether it lies between
/// zero and one.
#[derive(Clone, Copy, Debug, PartialEq, Eq, Structural)]
pub struct Ratio {
    pub bits: u64,
    pub in_unit: bool,
}

/// The settings of a run. A ratio that is not given has a default that the
/// caller knows.
#[derive(Clone, Debug)]
pub struct Config {
    pub seed: Option<u64>,
    pub trials: usize,
    pub side_len: i32,
    pub total_alphabet: i32,
    pub true_alphabet: i32,
    pub core_alphabet: i32,
    pub anchor_ratio: Option<Ratio>,
    pub false_flat: Option<Ratio>,
    pub false_attach: Option<Ratio>,
    pub max_u_nodes: u64,
    pub max_f_nodes: u64,
    pub dump_svgs: bool,
    pub rot_equiv: bool,
    pub kill_reflection: bool,
    pub false_count: Option<usize>,
    pub false_clusters: Option<Vec<usize>>,
    pub svg_dir: Option<String>,
}

/// The settings as values.
#[verifier::ext_equal]
pub struct Settings {
    pub seed: Option<u64>,
    pub trials: usize,
    pub side_len: i32,
    pub total_alphabet: i32,
    pub true_alphabet: i32,
    pub core_alphabet: i32,
    pub anchor_ratio: Option<Ratio>,
    pub false_flat: Option<Ratio>,
    pub false_attach: Option<Ratio>,
    pub max_u_nodes: u64,
    pub max_f_nodes: u64,
    pub dump_svgs: bool,
    pub rot_equiv: bool,
    pub kill_reflection: bool,
    pub false_count: Option<usize>,
    pub false_clusters: Option<Seq<usize>>,
    pub svg_dir: Option<Seq<char>>,
}

impl View for Config {
    type V = Settings;

    open spec fn view(&self) -> Settings {
        Settings {
            seed: self.seed,
            trials: self.trials,
            side_len: self.side_len,
            total_alphabet: self.total_alphabet,
            true_alphabet: self.true_alphabet,
            core_alphabet: self.core_alphabet,
            anchor_ratio: self.anchor_ratio,
            false_flat: self.false_flat,
            false_attach: self.false_attach,
            max_u_nodes: self.max_u_nodes,
            max_f_nodes: self.max_f_nodes,
            dump_svgs: self.dump_svgs,
            rot_equiv: self.rot_equiv,
            kill_reflection: self.kill_reflection,
            false_count: self.false_count,
            false_clusters: match self.false_clusters {
                Some(sizes) => Some(sizes@),
                None => None,
            },
            svg_dir: match self.svg_dir {
                Some(dir) => Some(dir@),
                None => None,
            },
        }
    }
}

/// The settings of a run without options.
pub open spec fn default_settings() -> Settings {
    Settings {
        seed: None,
        trials: 10,
        side_len: 8,
        total_alphabet: 295,
        true_alphabet: 240,
        core_alphabet: 40,
        anchor_ratio: None,
        false_flat: None,
        false_attach: None,
        max_u_nodes: 30_000,
        max_f_nodes: 30_000,
        dump_svgs: false,
        rot_equiv: false,
        kill_reflection: false,
        false_count: None,
        false_clusters: None,
        svg_dir: None,
    }
}

/// What is wrong with a command line.
#[derive(Clone, Debug)]
pub enum ArgError {
    /// The option at the end has no value.
    Missing(OptionName),
    BadNumber(NumberError),
    /// A ratio is no number, for the reason given.
    BadRatio(String),
    Unknown(String),
    SideLength,
    TotalAlphabet,
    TrueAlphabet,
    CoreAlphabet,
    AnchorRatio,
    FalseFlat,
    FalseAttach,
    /// The sizes of the false clusters do not add up to the count given.
    ClusterSum { sum: usize, count: usize },
    /// The sizes of the false clusters add up to too much.
    ClusterSumTooLarge,
}

/// What a command line asks for.
pub enum Request {
    Run(Config),
    Help,
}

/// Whether an option stands alone.
pub open spec fn is_flag(name: OptionName) -> bool {
    name == OptionName::DumpSvgs || name == OptionName::RotEquiv || name == OptionName::KillReflection || name
        == OptionName::Help
}

/// The settings after an option that stands alone.
pub open spec fn flagged(s: Settings, name: OptionName) -> Settings {
    match name {
        OptionName::DumpSvgs => Settings { dump_svgs: true, ..s },
        OptionName::RotEquiv => Settings { rot_equiv: true, ..s },
        OptionName::KillReflection => Settings { kill_reflection: true, ..s },
        _ => s,
    }
}

/// The settings after an option with a value that is a number, a list of
/// numbers or a path, or what is wrong with the value.
pub open spec fn assigned(s: Settings, name: OptionName, value: Seq<char>) -> Result<Settings, NumberError> {
    match name {
        OptionName::Seed => match unsigned_number(value, u64::MAX as int) {
            Ok(v) => Ok(Settings { seed: Some(v as u64), ..s }),
            Err(e) => Err(e),
        },
        OptionName::Trials => match unsigned_number(value, usize::MAX as int) {
            Ok(v) => Ok(Settings { trials: v as usize, ..s }),
            Err(e) => Err(e),
        },
        OptionName::Side => match signed_number(value) {
            Ok(v) => Ok(Settings { side_len: v as i32, ..s }),
            Err(e) => Err(e),
        },
        OptionName::TotalAlphabet => match signed_number(value) {
            Ok(v) => Ok(Settings { total_alphabet: v as i32, ..s }),
            Err(e) => Err(e),
        },
        OptionName::TrueAlphabet => match signed_number(value) {
            Ok(v) => Ok(Settings { true_alphabet: v as i32, ..s }),
            Err(e) => Err(e),
        },
        OptionName::CoreAlphabet => match signed_number(value) {
            Ok(v) => Ok(Settings { core_alphabet: v as i32, ..s }),
            Err(e) => Err(e),
        },
        OptionName::MaxUNodes => match unsigned_number(value, u64::MAX as int) {
            Ok(v) => Ok(Settings { max_u_nodes: v as u64, ..s }),
            Err(e) => Err(e),
        },
        OptionName::MaxFNodes => match unsigned_number(value, u64::MAX as int) {
            Ok(v) => Ok(Settings { max_f_nodes: v as u64, ..s }),
            Err(e) => Err(e),
        },
        OptionName::FalseCount => match unsigned_number(value, usize::MAX as int) {
            Ok(v) => Ok(Settings { false_count: Some(v as usize), ..s }),
            Err(e) => Err(e),
        },
        OptionName::FalseClusters => match size_list(value, 0, 0, Seq::empty()) {
            Ok(sizes) => Ok(Settings { false_clusters: Some(sizes), ..s }),
            Err(e) => Err(e),
        },
        OptionName::SvgDir => Ok(Settings { svg_dir: Some(value), ..s }),
        _ => Ok(s),
    }
}

pub open spec fn is_ratio(name: OptionName) -> bool {
    name == OptionName::AnchorRatio || name == OptionName::FalseFlat || name == OptionName::FalseAttach
}

/// The settings after an option whose value is a ratio.
pub open spec fn with_ratio(s: Settings, name: OptionName, ratio: Ratio) -> Settings {
    match name {
        OptionName::AnchorRatio => Settings { anchor_ratio: Some(ratio), ..s },
        OptionName::FalseFlat => Settings { false_flat: Some(ratio), ..s },
        OptionName::FalseAttach => Settings { false_attach: Some(ratio), ..s },
        _ => s,
    }
}

/// What reading arguments comes to.
pub enum Reading {
    Settings(Settings),
    Help,
    Missing(OptionName),
    BadNumber(NumberError),
    BadRatio(Seq<char>),
    Unknown(Seq<char>),
}

/// Whether reading the arguments from `i` on, with the settings `s` so far,
/// comes to `reading`: the options are taken in turn, and the first one that
/// is wrong, or that asks for help, ends it. `ratio` reads ratios.
pub open spec fn reads<R: Fn(&str) -> Result<Ratio, String>>(
    args: Seq<String>,
    i: int,
    s: Settings,
    ratio: R,
    reading: Reading,
) -> bool
    decreases args.len() - i,
{
    if i < 0 || i >= args.len() {
        reading == Reading::Settings(s)
    } else {
        match named_option(args[i]@) {
            None => reading == Reading::Unknown(args[i]@),
            Some(name) => if name == OptionName::Help {
                reading == Reading::Help
            } else if is_flag(name) {
                reads(args, i + 1, flagged(s, name), ratio, reading)
            } else if i + 1 >= args.len() {
                reading == Reading::Missing(name)
            } else if is_ratio(name) {
                exists|text: &str, got: Result<Ratio, String>|
                    text@ == args[i + 1]@ && #[trigger] ratio.ensures((text,), got) && match got {
                        Ok(value) => reads(args, i + 2, with_ratio(s, name, value), ratio, reading),
                        Err(reason) => reading == Reading::BadRatio(reason@),
                    }
            } else {
                match assigned(s, name, args[i + 1]@) {
                    Ok(after) => reads(args, i + 2, after, ratio, reading),
                    Err(e) => reading == Reading::BadNumber(e),
                }
            },
        }
    }
}

impl Config {
    /// The settings of a run without options.
    pub fn defaults() -> (cfg: Self)
        ensures
            cfg@ == default_settings(),
    {
        Config {
            seed: None,
            trials: 10,
            side_len: 8,
            total_alphabet: 295,
            true_alphabet: 240,
            core_alphabet: 40,
            anchor_ratio: None,
            false_flat: None,
            false_attach: None,
            max_u_nodes: 30_000,
            max_f_nodes: 30_000,
            dump_svgs: false,
            rot_equiv: false,
            kill_reflection: false,
            false_count: None,
            false_clusters: None,
            svg_dir: None,
        }
    }

    /// Takes an option that stands alone.
    fn set_flag(&mut self, name: OptionName)
        ensures
            final(self)@ == flagged(old(self)@, name),
    {
        match name {
            OptionName::DumpSvgs => {
                self.dump_svgs = true;
            },
            OptionName::RotEquiv => {
                self.rot_equiv = true;
            },
            OptionName::KillReflection => {
                self.kill_reflection = true;
            },
            _ => {},
        }
    }

    /// Takes an option whose value is a ratio.
    fn set_ratio(&mut self, name: OptionName, ratio: Ratio)
        ensures
            final(self)@ == with_ratio(old(self)@, name, ratio),
    {
        match name {
            OptionName::AnchorRatio => {
                self.anchor_ratio = Some(ratio);
            },
            OptionName::FalseFlat => {
                self.false_flat = Some(ratio);
            },
            OptionName::FalseAttach => {
                self.false_attach = Some(ratio);
            },
            _ => {},
        }
    }

    /// Takes an option with another value.
    pub fn set_value(&mut self, name: OptionName, value: &str) -> (fault: Option<NumberError>)
        ensures
            match fault {
                None => assigned(old(self)@, name, value@) == Ok::<Settings, NumberError>(final(self)@),
                Some(e) => assigned(old(self)@, name, value@) == Err::<Settings, NumberError>(e) && final(self)@
                    == old(self)@,
            },
    {
        match name {
            OptionName::Seed => match parse_unsigned(value, u64::MAX) {
                Ok(v) => {
                    self.seed = Some(v);
                    None
                },
                Err(e) => Some(e),
            },
            OptionName::Trials => match parse_usize(value) {
                Ok(v) => {
                    self.trials = v;
                    None
                },
                Err(e) => Some(e),
            },
            OptionName::Side => match parse_i32(value) {
                Ok(v) => {
                    self.side_len = v;
                    None
                },
                Err(e) => Some(e),
            },
            OptionName::TotalAlphabet => match parse_i32(value) {
                Ok(v) => {
                    self.total_alphabet = v;
                    None
                },
                Err(e) => Some(e),
            },
            OptionName::TrueAlphabet => match parse_i32(value) {
                Ok(v) => {
                    self.true_alphabet = v;
                    None
                },
                Err(e) => Some(e),
            },
            OptionName::CoreAlphabet => match parse_i32(value) {
                Ok(v) => {
                    self.core_alphabet = v;
                    None
                },
                Err(e) => Some(e),
            },
            OptionName::MaxUNodes => match parse_unsigned(value, u64::MAX) {
                Ok(v) => {
                    self.max_u_nodes = v;
                    None
                },
                Err(e) => Some(e),
            },
            OptionName::MaxFNodes => match parse_unsigned(value, u64::MAX) {
                Ok(v) => {
                    self.max_f_nodes = v;
                    None
                },
                Err(e) => Some(e),
            },
            OptionName::FalseCount => match parse_usize(value) {
                Ok(v) => {
                    self.false_count = Some(v);
                    None
                },
                Err(e) => Some(e),
            },
            OptionName::FalseClusters => match parse_sizes(value) {
                Ok(sizes) => {
                    self.false_clusters = Some(sizes);
                    None
                },
                Err(e) => Some(e),
            },
            OptionName::SvgDir => {
                self.svg_dir = Some(value.to_owned());
                None
            },
            _ => None,
        }
    }
}

/// Whether a ratio, if it is given, lies between zero and one.
pub open spec fn ratio_ok(ratio: Option<Ratio>) -> bool {
    ratio is Some ==> ratio->0.in_unit
}

/// What is wrong with settings, if anything: the first fault in this order.
pub enum Fault {
    SideLength,
    TotalAlphabet,
    TrueAlphabet,
    CoreAlphabet,
    AnchorRatio,
    FalseFlat,
    FalseAttach,
    ClusterSum { sum: int, count: usize },
    ClusterSumTooLarge,
}

pub open spec fn fault_of(s: Settings) -> Option<Fault> {
    if s.side_len < 1 {
        Some(Fault::SideLength)
    } else if s.total_alphabet < 1 {
        Some(Fault::TotalAlphabet)
    } else if s.true_alphabet < 1 || s.true_alphabet > s.total_alphabet {
        Some(Fault::TrueAlphabet)
    } else if s.core_alphabet < 0 {
        Some(Fault::CoreAlphabet)
    } else if !ratio_ok(s.anchor_ratio) {
        Some(Fault::AnchorRatio)
    } else if !ratio_ok(s.false_flat) {
        Some(Fault::FalseFlat)
    } else if !ratio_ok(s.false_attach) {
        Some(Fault::FalseAttach)
    } else {
        match s.false_clusters {
            Some(sizes) => {
                let sum = size_sum(sizes, sizes.len() as int);
                if sum > usize::MAX {
                    Some(Fault::ClusterSumTooLarge)
                } else if s.false_count is Some && sum != s.false_count->0 {
                    Some(Fault::ClusterSum { sum, count: s.false_count->0 })
                } else {
                    None
                }
            },
            None => None,
        }
    }
}

/// Settings without a fault, where the sizes of the false clusters, if they
/// are given, make the count.
pub open spec fn settled(s: Settings) -> Settings {
    match s.false_clusters {
        Some(sizes) => Settings { false_count: Some(size_sum(sizes, sizes.len() as int) as usize), ..s },
        None => s,
    }
}

/// Whether an error tells of a fault.
pub open spec fn tells_fault(error: ArgError, fault: Fault) -> bool {
    match fault {
        Fault::SideLength => error is SideLength,
        Fault::TotalAlphabet => error is TotalAlphabet,
        Fault::TrueAlphabet => error is TrueAlphabet,
        Fault::CoreAlphabet => error is CoreAlphabet,
        Fault::AnchorRatio => error is AnchorRatio,
        Fault::FalseFlat => error is FalseFlat,
        Fault::FalseAttach => error is FalseAttach,
        Fault::ClusterSum { sum, count } => error matches ArgError::ClusterSum { sum: s, count: c } && s == sum && c
            == count,
        Fault::ClusterSumTooLarge => error is ClusterSumTooLarge,
    }
}

/// The sum of the sizes, if it fits.
fn sum_sizes(sizes: &Vec<usize>) -> (sum: Option<usize>)
    ensures
        match sum {
            Some(v) => v == size_sum(sizes@, sizes.len() as int),
            None => size_sum(sizes@, sizes.len() as int) > usize::MAX,
        },
{
    let mut sum: usize = 0;
    for i in 0..sizes.len()
        invariant
            sum == size_sum(sizes@, i as int),
    {
        if sizes[i] > usize::MAX - sum {
            proof {
                lemma_size_sum_grows(sizes@, i + 1, sizes.len() as int);
            }
            return None;
        }
        sum = sum + sizes[i];
    }
    Some(sum)
}

fn ratio_fits(ratio: &Option<Ratio>) -> (fits: bool)
    ensures
        fits == ratio_ok(*ratio),
{
    match ratio {
        Some(r) => r.in_unit,
        None => true,
    }
}

impl Config {
    /// The settings, if nothing is wrong with them.
    pub fn validate(self) -> (checked: Result<Config, ArgError>)
        ensures
            match checked {
                Ok(cfg) => fault_of(self@) is None && cfg@ == settled(self@),
                Err(e) => fault_of(self@) is Some && tells_fault(e, fault_of(self@)->0),
            },
    {
        if self.side_len < 1 {
            return Err(ArgError::SideLength);
        }
        if self.total_alphabet < 1 {
            return Err(ArgError::TotalAlphabet);
        }
        if self.true_alphabet < 1 || self.true_alphabet > self.total_alphabet {
            return Err(ArgError::TrueAlphabet);
        }
        if self.core_alphabet < 0 {
            return Err(ArgError::CoreAlphabet);
        }
        if !ratio_fits(&self.anchor_ratio) {
            return Err(ArgError::AnchorRatio);
        }
        if !ratio_fits(&self.false_flat) {
            return Err(ArgError::FalseFlat);
        }
        if !ratio_fits(&self.false_attach) {
            return Err(ArgError::FalseAttach);
        }
        let sum: Option<usize> = match &self.false_clusters {
            Some(sizes) => match sum_sizes(sizes) {
                Some(sum) => Some(sum),
                None => {
                    return Err(ArgError::ClusterSumTooLarge);
                },
            },
            None => None,
        };
        let mut cfg: Config = self;
        if let Some(sum) = sum {
            if let Some(count) = cfg.false_count {
                if sum != count {
                    return Err(ArgError::ClusterSum { sum, count });
                }
            }
            cfg.false_count = Some(sum);
        }
        Ok(cfg)
    }

    /// What the arguments of the command line ask for. `ratio` reads the
    /// ratios among them.
    pub fn from_args<R: Fn(&str) -> Result<Ratio, String>>(args: &Vec<String>, ratio: R) -> (request: Result<
        Request,
        ArgError,
    >)
        requires
            forall|text: &str| #[trigger] ratio.requires((text,)),
        ensures
            match request {
                Ok(Request::Help) => reads(args@, 0, default_settings(), ratio, Reading::Help),
                Ok(Request::Run(cfg)) => exists|s: Settings| #[trigger]
                    reads(args@, 0, default_settings(), ratio, Reading::Settings(s)) && fault_of(s) is None && cfg@
                        == settled(s),
                Err(ArgError::Missing(name)) => reads(
                    args@,
                    0,
                    default_settings(),
                    ratio,
                    Reading::Missing(name),
                ),
                Err(ArgError::BadNumber(e)) => reads(args@, 0, default_settings(), ratio, Reading::BadNumber(e)),
                Err(ArgError::BadRatio(reason)) => reads(
                    args@,
                    0,
                    default_settings(),
                    ratio,
                    Reading::BadRatio(reason@),
                ),
                Err(ArgError::Unknown(arg)) => reads(args@, 0, default_settings(), ratio, Reading::Unknown(arg@)),
                Err(e) => exists|s: Settings| #[trigger]
                    reads(args@, 0, default_settings(), ratio, Reading::Settings(s)) && fault_of(s) is Some
                        && tells_fault(e, fault_of(s)->0),
            },
    {
        let mut cfg: Config = Config::defaults();
        let mut i: usize = 0;
        while i < args.len()
            invariant
                i <= args.len(),
                forall|text: &str| #[trigger] ratio.requires((text,)),
                forall|reading: Reading|
                    #[trigger] reads(args@, i as int, cfg@, ratio, reading) ==> reads(
                        args@,
                        0,
                        default_settings(),
                        ratio,
                        reading,
                    ),
            decreases args.len() - i,
        {
            let ghost before = cfg@;
            let ghost at = i as int;
            let arg: &str = args[i].as_str();
            match option_name(arg) {
                None => {
                    assert(reads(args@, at, before, ratio, Reading::Unknown(arg@)));
                    return Err(ArgError::Unknown(arg.to_owned()));
                },
                Some(OptionName::Help) => {
                    assert(reads(args@, at, before, ratio, Reading::Help));
                    return Ok(Request::Help);
                },
                Some(name) => {
                    if name == OptionName::DumpSvgs || name == OptionName::RotEquiv || name
                        == OptionName::KillReflection {
                        cfg.set_flag(name);
                        i = i + 1;
                        assert forall|reading: Reading| #[trigger] reads(args@, at + 1, cfg@, ratio, reading) implies reads(
                            args@,
                            0,
                            default_settings(),
                            ratio,
                            reading,
                        ) by {
                            assert(reads(args@, at, before, ratio, reading));
                        }
                    } else if i + 1 >= args.len() {
                        assert(reads(args@, at, before, ratio, Reading::Missing(name)));
                        return Err(ArgError::Missing(name));
                    } else {
                        let value: &str = args[i + 1].as_str();
                        if name == OptionName::AnchorRatio || name == OptionName::FalseFlat || name
                            == OptionName::FalseAttach {
                            let got: Result<Ratio, String> = ratio(value);
                            assert(ratio.ensures((value,), got));
                            match got {
                                Ok(read) => {
                                    cfg.set_ratio(name, read);
                                    assert forall|reading: Reading| #[trigger] reads(
                                        args@,
                                        at + 2,
                                        cfg@,
                                        ratio,
                                        reading,
                                    ) implies reads(args@, 0, default_settings(), ratio, reading) by {
                                        assert(ratio.ensures((value,), Ok(read)));
                                        assert(reads(args@, at, before, ratio, reading));
                                    }
                                },
                                Err(reason) => {
                                    assert(reads(args@, at, before, ratio, Reading::BadRatio(reason@)));
                                    return Err(ArgError::BadRatio(reason));
                                },
                            }
                        } else if let Some(e) = cfg.set_value(name, value) {
                            assert(reads(args@, at, before, ratio, Reading::BadNumber(e)));
                            return Err(ArgError::BadNumber(e));
                        } else {
                            assert forall|reading: Reading| #[trigger] reads(args@, at + 2, cfg@, ratio, reading) implies reads(
                                args@,
                                0,
                                default_settings(),
                                ratio,
                                reading,
                            ) by {
                                assert(reads(args@, at, before, ratio, reading));
                            }
                        }
                        i = i + 2;
                    }
                },
            }
        }
        let ghost s = cfg@;
        assert(reads(args@, i as int, s, ratio, Reading::Settings(s)));
        assert(reads(args@, 0, default_settings(), ratio, Reading::Settings(s)));
        match cfg.validate() {
            Ok(cfg) => Ok(Request::Run(cfg)),
            Err(e) => Err(e),
        }
    }

    /// Whether a run with these settings stays within the limits of its
    /// numbers: the cells of the board and their sides can be counted, and
    /// with an alphabet the board can be filled.
    pub open spec fn can_run(&self) -> bool {
        &&& i32::MIN < self.side_len
        &&& countable(hexagon_size(self.side_len - 1))
        &&& if self.lacks_alphabet() {
            self.true_ids() - self.core_alphabet <= i32::MAX
        } else {
            self.can_fill()
        }
    }

    /// The number of ids for true pieces: those asked for, but no more than
    /// there are in all.
    pub open spec fn true_ids(&self) -> int {
        if self.true_alphabet < self.total_alphabet {
            self.true_alphabet as int
        } else {
            self.total_alphabet as int
        }
    }

    /// Whether there are no ids for true pieces, so that a trial comes to
    /// nothing.
    pub open spec fn lacks_alphabet(&self) -> bool {
        self.total_alphabet <= 0 || self.true_alphabet <= 0
    }

    /// Whether a run that has an alphabet can fill its board: there is a
    /// cell, the ids can be doubled and have shapes of their own, no false
    /// cluster is empty, and the pieces can be counted.
    pub open spec fn can_fill(&self) -> bool {
        &&& 1 <= self.side_len
        &&& self.total_alphabet <= 0x3fff_fffe
        &&& !lacks_keys(self.total_alphabet as int)
        &&& 0 <= self.core_alphabet
        &&& match self.false_clusters {
            Some(sizes) => {
                &&& forall|i: int| 0 <= i < sizes.len() ==> 1 <= #[trigger] sizes@[i] < i32::MAX
                &&& hexagon_size(self.side_len - 1) + size_sum(sizes@, sizes.len() as int) <= usize::MAX
            },
            None => self.false_count is Some ==> hexagon_size(self.side_len - 1) + self.false_count->0 <= usize::MAX,
        }
    }

    pub fn within_limits(&self) -> (fits: bool)
        ensures
            fits == self.can_run(),
    {
        if self.side_len == i32::MIN {
            return false;
        }
        let cells: usize = match count_cells(self.side_len) {
            Some(cells) => cells,
            None => {
                return false;
            },
        };
        if self.total_alphabet <= 0 || self.true_alphabet <= 0 {
            let ids: i32 = if self.true_alphabet < self.total_alphabet {
                self.true_alphabet
            } else {
                self.total_alphabet
            };
            return ids as i64 - self.core_alphabet as i64 <= 0x7fff_ffff;
        }
        if self.side_len < 1 || self.total_alphabet > 0x3fff_fffe || self.core_alphabet < 0 {
            return false;
        }
        if !shapes_suffice(self.total_alphabet as usize) {
            return false;
        }
        match &self.false_clusters {
            Some(sizes) => {
                for i in 0..sizes.len()
                    invariant
                        forall|k: int| 0 <= k < i ==> 1 <= #[trigger] sizes@[k] < i32::MAX,
                        self.false_clusters == Some(*sizes),
                        !self.lacks_alphabet(),
                {
                    if sizes[i] < 1 || sizes[i] >= 0x7fff_ffff {
                        assert(!(1 <= sizes@[i as int] < i32::MAX));
                        return false;
                    }
                }
                match sum_sizes(sizes) {
                    Some(sum) => sum <= usize::MAX - cells,
                    None => false,
                }
            },
            None => match self.false_count {
                Some(count) => count <= usize::MAX - cells,
                None => true,
            },
        }
    }
}

/// Whether so many cells, and their sides, can be counted.
pub open spec fn countable(cells: int) -> bool {
    cells <= i32::MAX && 6 * cells <= usize::MAX
}

/// The number of cells of a board, if they can be counted.
fn count_cells(side_len: i32) -> (cells: Option<usize>)
    requires
        i32::MIN < side_len,
    ensures
        match cells {
            Some(n) => n == hexagon_size(side_len - 1) && countable(n as int),
            None => !countable(hexagon_size(side_len - 1)),
        },
{
    if side_len < 1 {
        return Some(0);
    }
    let radius: i64 = side_len as i64 - 1;
    if radius >= 0x1_0000 {
        proof {
            let r = radius as int;
            assert(3 * r * (r + 1) + 1 > i32::MAX) by (nonlinear_arith)
                requires
                    r >= 0x1_0000,
            ;
        }
        return None;
    }
    proof {
        let r = radius as int;
        assert(3 * r * (r + 1) == (3 * r) * (r + 1));
        assert(0 <= (3 * r) * (r + 1) <= 0x3_0000 * 0x1_0001) by (nonlinear_arith)
            requires
                0 <= r < 0x1_0000,
        ;
    }
    let cells: i64 = 3 * radius * (radius + 1) + 1;
    if cells > 0x7fff_ffff {
        return None;
    }
    let n: usize = cells as usize;
    if n > usize::MAX / 6 {
        return None;
    }
    Some(n)
}

} // verus!
