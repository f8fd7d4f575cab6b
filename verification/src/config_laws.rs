//! What the words of a command line do to the settings.

use crate::config::{
    fault_of, flagged, named_option, reads, settled, with_ratio, Fault, OptionName, Ratio, Reading, Settings,
};
use crate::number::{signed_number, size_list, unsigned_number, NumberError};
use crate::trial_decoys::{lemma_size_sum_grows, size_sum};
use vstd::prelude::*;

verus! {

/// The words of the options differ in their lengths or in a letter.
proof fn lemma_letters()
    ensures
        "--seed"@.len() == 6,
        "--trials"@.len() == 8,
        "--side"@.len() == 6,
        "--total-alphabet"@.len() == 16,
        "--true-alphabet"@.len() == 15,
        "--core-alphabet"@.len() == 15,
        "--anchor-ratio"@.len() == 14,
        "--false-flat"@.len() == 12,
        "--false-attach"@.len() == 14,
        "--max-u-nodes"@.len() == 13,
        "--max-f-nodes"@.len() == 13,
        "--false-count"@.len() == 13,
        "--false-clusters"@.len() == 16,
        "--dump-svgs"@.len() == 11,
        "--svg-dir"@.len() == 9,
        "--rot-equiv"@.len() == 11,
        "--kill-reflection"@.len() == 17,
        "--help"@.len() == 6,
        "--side"@[3] != "--seed"@[3],
        "--core-alphabet"@[2] != "--true-alphabet"@[2],
        "--false-attach"@[2] != "--anchor-ratio"@[2],
        "--max-f-nodes"@[6] != "--max-u-nodes"@[6],
        "--false-count"@[2] != "--max-u-nodes"@[2],
        "--false-count"@[2] != "--max-f-nodes"@[2],
        "--false-clusters"@[2] != "--total-alphabet"@[2],
        "--rot-equiv"@[2] != "--dump-svgs"@[2],
        "--help"@[2] != "--seed"@[2],
        "--help"@[2] != "--side"@[2],
{
    reveal_strlit("--seed");
    reveal_strlit("--trials");
    reveal_strlit("--side");
    reveal_strlit("--total-alphabet");
    reveal_strlit("--true-alphabet");
    reveal_strlit("--core-alphabet");
    reveal_strlit("--anchor-ratio");
    reveal_strlit("--false-flat");
    reveal_strlit("--false-attach");
    reveal_strlit("--max-u-nodes");
    reveal_strlit("--max-f-nodes");
    reveal_strlit("--false-count");
    reveal_strlit("--false-clusters");
    reveal_strlit("--dump-svgs");
    reveal_strlit("--svg-dir");
    reveal_strlit("--rot-equiv");
    reveal_strlit("--kill-reflection");
    reveal_strlit("--help");
}

/// Each option goes by its own word.
proof fn lemma_words()
    ensures
        named_option("--seed"@) == Some(OptionName::Seed),
        named_option("--trials"@) == Some(OptionName::Trials),
        named_option("--side"@) == Some(OptionName::Side),
        named_option("--total-alphabet"@) == Some(OptionName::TotalAlphabet),
        named_option("--true-alphabet"@) == Some(OptionName::TrueAlphabet),
        named_option("--core-alphabet"@) == Some(OptionName::CoreAlphabet),
        named_option("--anchor-ratio"@) == Some(OptionName::AnchorRatio),
        named_option("--false-flat"@) == Some(OptionName::FalseFlat),
        named_option("--false-attach"@) == Some(OptionName::FalseAttach),
        named_option("--max-u-nodes"@) == Some(OptionName::MaxUNodes),
        named_option("--max-f-nodes"@) == Some(OptionName::MaxFNodes),
        named_option("--false-count"@) == Some(OptionName::FalseCount),
        named_option("--false-clusters"@) == Some(OptionName::FalseClusters),
        named_option("--dump-svgs"@) == Some(OptionName::DumpSvgs),
        named_option("--svg-dir"@) == Some(OptionName::SvgDir),
        named_option("--rot-equiv"@) == Some(OptionName::RotEquiv),
        named_option("--kill-reflection"@) == Some(OptionName::KillReflection),
        named_option("--help"@) == Some(OptionName::Help),
{
    lemma_letters();
}

/// Whether two settings agree but for whether drawings are asked for, whether
/// turned solutions count as one, and whether reflections are to be killed.
pub open spec fn same_but_flags(s: Settings, t: Settings) -> bool {
    &&& s.seed == t.seed
    &&& s.trials == t.trials
    &&& s.side_len == t.side_len
    &&& s.total_alphabet == t.total_alphabet
    &&& s.true_alphabet == t.true_alphabet
    &&& s.core_alphabet == t.core_alphabet
    &&& s.anchor_ratio == t.anchor_ratio
    &&& s.false_flat == t.false_flat
    &&& s.false_attach == t.false_attach
    &&& s.max_u_nodes == t.max_u_nodes
    &&& s.max_f_nodes == t.max_f_nodes
    &&& s.false_count == t.false_count
    &&& s.false_clusters == t.false_clusters
    &&& s.svg_dir == t.svg_dir
}

/// A word that stands alone turns on the setting that it names and leaves
/// every other setting as it is, wherever it stands on the command line.
pub proof fn law_flags<R: Fn(&str) -> Result<Ratio, String>>(
    args: Seq<String>,
    i: int,
    s: Settings,
    ratio: R,
    reading: Reading,
) -> (t: Settings)
    requires
        0 <= i < args.len(),
        args[i]@ == "--dump-svgs"@ || args[i]@ == "--rot-equiv"@ || args[i]@ == "--kill-reflection"@,
        reads(args, i, s, ratio, reading),
    ensures
        reads(args, i + 1, t, ratio, reading),
        same_but_flags(s, t),
        t.dump_svgs == (s.dump_svgs || args[i]@ == "--dump-svgs"@),
        t.rot_equiv == (s.rot_equiv || args[i]@ == "--rot-equiv"@),
        t.kill_reflection == (s.kill_reflection || args[i]@ == "--kill-reflection"@),
{
    lemma_letters();
    lemma_words();
    flagged(s, named_option(args[i]@)->0)
}

/// A command line of flags alone asks for the settings without options, but
/// for the settings that a word on it names.
pub proof fn law_flags_alone<R: Fn(&str) -> Result<Ratio, String>>(
    args: Seq<String>,
    i: int,
    s: Settings,
    ratio: R,
    t: Settings,
)
    requires
        0 <= i <= args.len(),
        forall|k: int|
            i <= k < args.len() ==> (#[trigger] args[k])@ == "--dump-svgs"@ || args[k]@ == "--rot-equiv"@ || args[k]@
                == "--kill-reflection"@,
        reads(args, i, s, ratio, Reading::Settings(t)),
    ensures
        same_but_flags(s, t),
        t.dump_svgs == (s.dump_svgs || exists|k: int| i <= k < args.len() && (#[trigger] args[k])@ == "--dump-svgs"@),
        t.rot_equiv == (s.rot_equiv || exists|k: int| i <= k < args.len() && (#[trigger] args[k])@ == "--rot-equiv"@),
        t.kill_reflection == (s.kill_reflection || exists|k: int|
            i <= k < args.len() && (#[trigger] args[k])@ == "--kill-reflection"@),
    decreases args.len() - i,
{
    if i < args.len() {
        assert(args[i]@ == "--dump-svgs"@ || args[i]@ == "--rot-equiv"@ || args[i]@ == "--kill-reflection"@);
        let next = law_flags(args, i, s, ratio, Reading::Settings(t));
        law_flags_alone(args, i + 1, next, ratio, t);
    }
}

/// A word with a number behind it puts that number into the setting that it
/// names and leaves every other setting as it is, wherever it stands on the
/// command line.
pub proof fn law_numbers<R: Fn(&str) -> Result<Ratio, String>>(
    args: Seq<String>,
    i: int,
    s: Settings,
    ratio: R,
    reading: Reading,
)
    requires
        0 <= i,
        i + 1 < args.len(),
        reads(args, i, s, ratio, reading),
    ensures
        forall|v: int|
            args[i]@ == "--seed"@ && unsigned_number(args[i + 1]@, u64::MAX as int) == Ok::<int, NumberError>(v) ==> #[trigger] reads(
                args,
                i + 2,
                Settings { seed: Some(v as u64), ..s },
                ratio,
                reading,
            ),
        forall|v: int|
            args[i]@ == "--trials"@ && unsigned_number(args[i + 1]@, usize::MAX as int) == Ok::<int, NumberError>(v) ==> #[trigger] reads(
                args,
                i + 2,
                Settings { trials: v as usize, ..s },
                ratio,
                reading,
            ),
        forall|v: int|
            args[i]@ == "--side"@ && signed_number(args[i + 1]@) == Ok::<int, NumberError>(v) ==> #[trigger] reads(
                args,
                i + 2,
                Settings { side_len: v as i32, ..s },
                ratio,
                reading,
            ),
        forall|v: int|
            args[i]@ == "--total-alphabet"@ && signed_number(args[i + 1]@) == Ok::<int, NumberError>(v) ==> #[trigger] reads(
                args,
                i + 2,
                Settings { total_alphabet: v as i32, ..s },
                ratio,
                reading,
            ),
        forall|v: int|
            args[i]@ == "--true-alphabet"@ && signed_number(args[i + 1]@) == Ok::<int, NumberError>(v) ==> #[trigger] reads(
                args,
                i + 2,
                Settings { true_alphabet: v as i32, ..s },
                ratio,
                reading,
            ),
        forall|v: int|
            args[i]@ == "--core-alphabet"@ && signed_number(args[i + 1]@) == Ok::<int, NumberError>(v) ==> #[trigger] reads(
                args,
                i + 2,
                Settings { core_alphabet: v as i32, ..s },
                ratio,
                reading,
            ),
        forall|v: int|
            args[i]@ == "--max-u-nodes"@ && unsigned_number(args[i + 1]@, u64::MAX as int) == Ok::<int, NumberError>(v) ==> #[trigger] reads(
                args,
                i + 2,
                Settings { max_u_nodes: v as u64, ..s },
                ratio,
                reading,
            ),
        forall|v: int|
            args[i]@ == "--max-f-nodes"@ && unsigned_number(args[i + 1]@, u64::MAX as int) == Ok::<int, NumberError>(v) ==> #[trigger] reads(
                args,
                i + 2,
                Settings { max_f_nodes: v as u64, ..s },
                ratio,
                reading,
            ),
        forall|v: int|
            args[i]@ == "--false-count"@ && unsigned_number(args[i + 1]@, usize::MAX as int) == Ok::<int, NumberError>(v) ==> #[trigger] reads(
                args,
                i + 2,
                Settings { false_count: Some(v as usize), ..s },
                ratio,
                reading,
            ),
        forall|sizes: Seq<usize>|
            args[i]@ == "--false-clusters"@ && size_list(args[i + 1]@, 0, 0, Seq::empty()) == Ok::<
                Seq<usize>,
                NumberError,
            >(sizes) ==> #[trigger] reads(args, i + 2, Settings { false_clusters: Some(sizes), ..s }, ratio, reading),
        args[i]@ == "--svg-dir"@ ==> reads(args, i + 2, Settings { svg_dir: Some(args[i + 1]@), ..s }, ratio, reading),
{
    lemma_words();
}

/// Whether the settings after a word with a ratio behind it, if the ratio
/// could be read, are `s` with `t` in the place that the word names.
pub open spec fn ratio_read<R: Fn(&str) -> Result<Ratio, String>>(
    args: Seq<String>,
    i: int,
    ratio: R,
    reading: Reading,
    got: Result<Ratio, String>,
    t: Settings,
) -> bool {
    &&& exists|text: &str| text@ == args[i + 1]@ && #[trigger] ratio.ensures((text,), got)
    &&& match got {
        Ok(_) => reads(args, i + 2, t, ratio, reading),
        Err(reason) => reading == Reading::BadRatio(reason@),
    }
}

/// A word with a ratio behind it puts that ratio into the setting that it
/// names and leaves every other setting as it is.
pub proof fn law_ratios<R: Fn(&str) -> Result<Ratio, String>>(
    args: Seq<String>,
    i: int,
    s: Settings,
    ratio: R,
    reading: Reading,
) -> (got: Result<Ratio, String>)
    requires
        0 <= i,
        i + 1 < args.len(),
        args[i]@ == "--anchor-ratio"@ || args[i]@ == "--false-flat"@ || args[i]@ == "--false-attach"@,
        reads(args, i, s, ratio, reading),
    ensures
        args[i]@ == "--anchor-ratio"@ ==> ratio_read(args, i, ratio, reading, got, Settings { anchor_ratio: Some(got->Ok_0), ..s }),
        args[i]@ == "--false-flat"@ ==> ratio_read(args, i, ratio, reading, got, Settings { false_flat: Some(got->Ok_0), ..s }),
        args[i]@ == "--false-attach"@ ==> ratio_read(args, i, ratio, reading, got, Settings { false_attach: Some(got->Ok_0), ..s }),
{
    lemma_words();
    let name = named_option(args[i]@)->0;
    let (text, got) = choose|text: &str, got: Result<Ratio, String>|
        text@ == args[i + 1]@ && #[trigger] ratio.ensures((text,), got) && match got {
            Ok(value) => reads(args, i + 2, with_ratio(s, name, value), ratio, reading),
            Err(reason) => reading == Reading::BadRatio(reason@),
        };
    assert(text@ == args[i + 1]@ && ratio.ensures((text,), got));
    got
}

/// Whether a word takes a value.
pub open spec fn takes_value(word: Seq<char>) -> bool {
    ||| word == "--seed"@
    ||| word == "--trials"@
    ||| word == "--side"@
    ||| word == "--total-alphabet"@
    ||| word == "--true-alphabet"@
    ||| word == "--core-alphabet"@
    ||| word == "--anchor-ratio"@
    ||| word == "--false-flat"@
    ||| word == "--false-attach"@
    ||| word == "--max-u-nodes"@
    ||| word == "--max-f-nodes"@
    ||| word == "--false-count"@
    ||| word == "--false-clusters"@
    ||| word == "--svg-dir"@
}

/// Whether a word stands alone.
pub open spec fn stands_alone(word: Seq<char>) -> bool {
    word == "--dump-svgs"@ || word == "--rot-equiv"@ || word == "--kill-reflection"@ || word == "--help"@
}

/// A call for help ends the reading, and so does a word that names nothing,
/// or one at the end that takes a value.
pub proof fn law_reading_ends<R: Fn(&str) -> Result<Ratio, String>>(
    args: Seq<String>,
    i: int,
    s: Settings,
    ratio: R,
    reading: Reading,
)
    requires
        0 <= i < args.len(),
        reads(args, i, s, ratio, reading),
    ensures
        args[i]@ == "--help"@ ==> reading == Reading::Help,
        !takes_value(args[i]@) && !stands_alone(args[i]@) ==> reading == Reading::Unknown(args[i]@),
        args[i]@ == "--seed"@ && i + 1 == args.len() ==> reading == Reading::Missing(OptionName::Seed),
        args[i]@ == "--trials"@ && i + 1 == args.len() ==> reading == Reading::Missing(OptionName::Trials),
        args[i]@ == "--side"@ && i + 1 == args.len() ==> reading == Reading::Missing(OptionName::Side),
        args[i]@ == "--total-alphabet"@ && i + 1 == args.len() ==> reading == Reading::Missing(OptionName::TotalAlphabet),
        args[i]@ == "--true-alphabet"@ && i + 1 == args.len() ==> reading == Reading::Missing(OptionName::TrueAlphabet),
        args[i]@ == "--core-alphabet"@ && i + 1 == args.len() ==> reading == Reading::Missing(OptionName::CoreAlphabet),
        args[i]@ == "--anchor-ratio"@ && i + 1 == args.len() ==> reading == Reading::Missing(OptionName::AnchorRatio),
        args[i]@ == "--false-flat"@ && i + 1 == args.len() ==> reading == Reading::Missing(OptionName::FalseFlat),
        args[i]@ == "--false-attach"@ && i + 1 == args.len() ==> reading == Reading::Missing(OptionName::FalseAttach),
        args[i]@ == "--max-u-nodes"@ && i + 1 == args.len() ==> reading == Reading::Missing(OptionName::MaxUNodes),
        args[i]@ == "--max-f-nodes"@ && i + 1 == args.len() ==> reading == Reading::Missing(OptionName::MaxFNodes),
        args[i]@ == "--false-count"@ && i + 1 == args.len() ==> reading == Reading::Missing(OptionName::FalseCount),
        args[i]@ == "--false-clusters"@ && i + 1 == args.len() ==> reading == Reading::Missing(OptionName::FalseClusters),
        args[i]@ == "--svg-dir"@ && i + 1 == args.len() ==> reading == Reading::Missing(OptionName::SvgDir),
{
    lemma_words();
}

/// A number that cannot be read ends the reading with what is wrong with it.
pub proof fn law_bad_numbers<R: Fn(&str) -> Result<Ratio, String>>(
    args: Seq<String>,
    i: int,
    s: Settings,
    ratio: R,
    reading: Reading,
    e: NumberError,
)
    requires
        0 <= i,
        i + 1 < args.len(),
        reads(args, i, s, ratio, reading),
    ensures
        (args[i]@ == "--seed"@ || args[i]@ == "--max-u-nodes"@ || args[i]@ == "--max-f-nodes"@) && unsigned_number(
            args[i + 1]@,
            u64::MAX as int,
        ) == Err::<int, NumberError>(e) ==> reading == Reading::BadNumber(e),
        (args[i]@ == "--trials"@ || args[i]@ == "--false-count"@) && unsigned_number(args[i + 1]@, usize::MAX as int)
            == Err::<int, NumberError>(e) ==> reading == Reading::BadNumber(e),
        (args[i]@ == "--side"@ || args[i]@ == "--total-alphabet"@ || args[i]@ == "--true-alphabet"@ || args[i]@
            == "--core-alphabet"@) && signed_number(args[i + 1]@) == Err::<int, NumberError>(e) ==> reading
            == Reading::BadNumber(e),
        args[i]@ == "--false-clusters"@ && size_list(args[i + 1]@, 0, 0, Seq::empty()) == Err::<
            Seq<usize>,
            NumberError,
        >(e) ==> reading == Reading::BadNumber(e),
{
    lemma_words();
}

/// Whether a ratio, if it is given, lies between zero and one.
pub open spec fn in_unit(ratio: Option<Ratio>) -> bool {
    ratio is Some ==> ratio->0.in_unit
}

/// Settings are accepted if there is a cell, there are ids, the true ones
/// among them, the core is not negative, the ratios lie between zero and one,
/// and the sizes of the false clusters add up to the count.
pub proof fn law_accepted(s: Settings)
    ensures
        fault_of(s) is None <==> {
            &&& 1 <= s.side_len
            &&& 1 <= s.true_alphabet <= s.total_alphabet
            &&& 0 <= s.core_alphabet
            &&& in_unit(s.anchor_ratio)
            &&& in_unit(s.false_flat)
            &&& in_unit(s.false_attach)
            &&& s.false_clusters is Some ==> {
                let sum = size_sum(s.false_clusters->0, s.false_clusters->0.len() as int);
                &&& sum <= usize::MAX
                &&& s.false_count is Some ==> sum == s.false_count->0
            }
        },
{
}

/// Each fault is told of where it is there and none of those named before it
/// is: the side, all ids, the true ids, the core ids, and the ratios.
pub proof fn law_first_fault(s: Settings)
    ensures
        fault_of(s) == Some(Fault::SideLength) <==> s.side_len < 1,
        fault_of(s) == Some(Fault::TotalAlphabet) <==> 1 <= s.side_len && s.total_alphabet < 1,
        fault_of(s) == Some(Fault::TrueAlphabet) <==> 1 <= s.side_len && 1 <= s.total_alphabet && !(1
            <= s.true_alphabet <= s.total_alphabet),
        fault_of(s) == Some(Fault::CoreAlphabet) <==> 1 <= s.side_len && 1 <= s.true_alphabet <= s.total_alphabet
            && s.core_alphabet < 0,
        fault_of(s) == Some(Fault::AnchorRatio) <==> 1 <= s.side_len && 1 <= s.true_alphabet <= s.total_alphabet && 0
            <= s.core_alphabet && !in_unit(s.anchor_ratio),
        fault_of(s) == Some(Fault::FalseFlat) <==> 1 <= s.side_len && 1 <= s.true_alphabet <= s.total_alphabet && 0
            <= s.core_alphabet && in_unit(s.anchor_ratio) && !in_unit(s.false_flat),
        fault_of(s) == Some(Fault::FalseAttach) <==> 1 <= s.side_len && 1 <= s.true_alphabet <= s.total_alphabet && 0
            <= s.core_alphabet && in_unit(s.anchor_ratio) && in_unit(s.false_flat) && !in_unit(s.false_attach),
{
}

/// Sizes of false clusters that are accepted make the count; nothing else is
/// changed.
pub proof fn law_count_from_sizes(s: Settings)
    requires
        fault_of(s) is None,
    ensures
        s.false_clusters is None ==> settled(s) == s,
        s.false_clusters is Some ==> settled(s).false_count is Some && settled(s).false_count->0 == size_sum(
            s.false_clusters->0,
            s.false_clusters->0.len() as int,
        ) && settled(s) == (Settings { false_count: settled(s).false_count, ..s }),
        s.false_count is Some ==> settled(s).false_count == s.false_count,
{
    if s.false_clusters is Some {
        lemma_size_sum_grows(s.false_clusters->0, 0, s.false_clusters->0.len() as int);
    }
}

} // verus!
