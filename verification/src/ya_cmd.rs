//! Routing of `ya` argv: which filter pipeline a command line gets. The
//! arguments themselves are forwarded unchanged by the caller.

use vstd::prelude::*;
use crate::envelope::{is_test_mode, test_mode};
use crate::ya_build::build_mode;
use crate::text::{chars_of, eq_str, string_views};

verus! {

/// First-token subdispatch for filter routing.
#[derive(Debug, Clone, Copy, PartialEq, Eq, Structural)]
pub enum YaKind {
    Make,
    Test,
    Tool,
    Other,
}

/// Execution plan for a `ya` command line.
#[derive(Debug, Clone, Copy, PartialEq, Eq)]
pub enum YaPipeline {
    /// Filtered output, the raw text kept under the tee label `tee`.
    Filtered { tee: &'static str },
    Passthrough,
}

/// The kind named by the first argument.
pub open spec fn kind_of(args: Seq<Seq<char>>) -> YaKind {
    if args.len() == 0 {
        YaKind::Other
    } else if args[0] == "make"@ {
        YaKind::Make
    } else if args[0] == "test"@ {
        YaKind::Test
    } else if args[0] == "tool"@ {
        YaKind::Tool
    } else {
        YaKind::Other
    }
}

/// Classify `ya` argv by the first positional token.
pub fn classify(args: &[String]) -> (r: YaKind)
    ensures
        r == kind_of(string_views(args@)),
{
    if args.len() == 0 {
        return YaKind::Other;
    }
    let first = chars_of(args[0].as_str());
    assert(string_views(args@)[0] == first@);
    if eq_str(&first, "make") {
        YaKind::Make
    } else if eq_str(&first, "test") {
        YaKind::Test
    } else if eq_str(&first, "tool") {
        YaKind::Tool
    } else {
        YaKind::Other
    }
}

/// `ya test` and test-mode `ya make` are filtered with the tee label `ya`;
/// everything else passes through.
pub fn pipeline(args: &[String]) -> (r: YaPipeline)
    ensures
        test_mode(string_views(args@)) ==> (r matches YaPipeline::Filtered { tee } && tee@ == "ya"@),
        !test_mode(string_views(args@)) ==> r is Passthrough,
{
    if is_test_mode(args) {
        let tee = "ya";
        proof {
            reveal_strlit("ya");
        }
        YaPipeline::Filtered { tee }
    } else {
        YaPipeline::Passthrough
    }
}

/// `ya test` is always filtered; `ya tool` and unknown subcommands never
/// are; every `ya make` is either test mode (filtered) or build mode, never
/// both.
pub proof fn law_ya_routing(args: Seq<Seq<char>>)
    ensures
        kind_of(args) == YaKind::Test ==> test_mode(args),
        kind_of(args) == YaKind::Tool || kind_of(args) == YaKind::Other ==> !test_mode(args),
        kind_of(args) == YaKind::Make ==> (test_mode(args) != build_mode(args)),
        build_mode(args) ==> kind_of(args) == YaKind::Make,
{
    reveal_strlit("make");
    reveal_strlit("test");
    reveal_strlit("tool");
    if args.len() > 0 {
        if args[0] == "tool"@ {
            assert(args[0] != "test"@ && args[0] != "make"@) by {
                assert("tool"@[1] != "test"@[1]);
                assert("tool"@[0] != "make"@[0]);
            }
        }
        if args[0] == "test"@ {
            assert(args[0] != "make"@) by {
                assert("test"@[0] != "make"@[0]);
            }
        }
    }
}

} // verus!
