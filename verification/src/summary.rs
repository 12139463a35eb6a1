//! The summary of a comparison: how big the two apps are, how the class matches came out, and
//! which verified patterns they rest on.

use vstd::prelude::*;

use crate::anchors::RARE_ANCHOR_MAX_FREQUENCY;
use crate::chars::{decimal, push_decimal, push_str, strs};
use crate::mapping::{ClassLink, MatchStatus};
use crate::model::AppModel;
use crate::pipeline::{lemma_status_count_bound, status_count};

verus! {

/// The reason of a match of two classes with the same fingerprint.
pub const VERIFIED_EXACT_CLASS_FINGERPRINT: &'static str = "verified: exact class fingerprint";

/// The reason of a match that keeps its descriptor and its API.
pub const VERIFIED_EXACT_DESCRIPTOR_STABLE_API: &'static str = "verified: exact descriptor and stable API shape";

/// The reason of a match that keeps its descriptor and its code.
pub const VERIFIED_EXACT_DESCRIPTOR_STABLE_CODE: &'static str = "verified: exact descriptor and stable code pattern";

/// The reason of a match that keeps its descriptor, its prototypes and its code.
pub const VERIFIED_EXACT_DESCRIPTOR_STABLE_PROTO_CODE: &'static str =
    "verified: exact descriptor and stable proto/code pattern";

/// The reason of a match that behaves the same under a new name.
pub const VERIFIED_RENAMED_EXACT_BEHAVIOR: &'static str = "verified: renamed exact behavior pattern";

/// The reason of a match under a new name that keeps its prototypes and anchors.
pub const VERIFIED_RENAMED_STABLE_PROTO_ANCHOR: &'static str = "verified: renamed stable prototype and anchor pattern";

/// The reason of a match resting on rare anchors and a stable shape.
pub const VERIFIED_RARE_ANCHORS_STABLE_SHAPE: &'static str = "verified: rare anchors and stable shape";

/// The reason of a match that its verified neighbors in the call graph confirm.
pub const VERIFIED_CALL_GRAPH_NEIGHBORHOOD: &'static str = "verified: call graph neighborhood";

/// The statuses of `links`, in order.
pub open spec fn link_statuses(links: Seq<ClassLink>) -> Seq<MatchStatus> {
    links.map_values(|l: ClassLink| l.status)
}

/// How many of `links` give the reason `r`.
pub open spec fn reason_count(links: Seq<ClassLink>, r: Seq<char>) -> nat
    decreases links.len(),
{
    if links.len() == 0 {
        0
    } else {
        reason_count(links.drop_last(), r) + if strs(links.last().reasons@).contains(r) {
            1nat
        } else {
            0nat
        }
    }
}

/// The summary of a comparison of `old` with `new`, whose class matches are `links`, up to its
/// confidence thresholds: one `name: value` line each.
pub open spec fn summary_head(old: AppModel, new: AppModel, links: Seq<ClassLink>, passes: usize) -> Seq<char> {
    let st = link_statuses(links);
    "old_apk: "@ + old.apk_name@ + "\nnew_apk: "@ + new.apk_name@ + "\nold_classes: "@ + decimal(old.classes@.len())
        + "\nnew_classes: "@ + decimal(new.classes@.len()) + "\nold_apk_parts: "@ + decimal(
        old.coverage.apk_parts as nat,
    ) + "\nnew_apk_parts: "@ + decimal(new.coverage.apk_parts as nat) + "\nold_dex_files: "@ + decimal(
        old.coverage.dex_files as nat,
    ) + "\nnew_dex_files: "@ + decimal(new.coverage.dex_files as nat) + "\nold_warnings: "@ + decimal(
        old.coverage.warnings@.len(),
    ) + "\nnew_warnings: "@ + decimal(new.coverage.warnings@.len()) + "\nmatched_classes: "@ + decimal(
        status_count(st, MatchStatus::Matched),
    ) + "\nlow_confidence_classes: "@ + decimal(status_count(st, MatchStatus::LowConfidence))
        + "\nconflict_classes: "@ + decimal(status_count(st, MatchStatus::Conflict)) + "\nsemantic_break_classes: "@
        + decimal(status_count(st, MatchStatus::SemanticBreak)) + "\nunresolved_old_classes: "@ + decimal(
        status_count(st, MatchStatus::UnresolvedOld),
    ) + "\nunresolved_new_classes: "@ + decimal(status_count(st, MatchStatus::UnresolvedNew))
        + "\nverified_exact_class_fingerprint: "@ + decimal(reason_count(links, VERIFIED_EXACT_CLASS_FINGERPRINT@))
        + "\nverified_exact_descriptor_stable_api_shape: "@ + decimal(
        reason_count(links, VERIFIED_EXACT_DESCRIPTOR_STABLE_API@),
    ) + "\nverified_exact_descriptor_stable_code_pattern: "@ + decimal(
        reason_count(links, VERIFIED_EXACT_DESCRIPTOR_STABLE_CODE@),
    ) + "\nverified_exact_descriptor_stable_proto_code_pattern: "@ + decimal(
        reason_count(links, VERIFIED_EXACT_DESCRIPTOR_STABLE_PROTO_CODE@),
    ) + "\nverified_renamed_exact_behavior_pattern: "@ + decimal(reason_count(links, VERIFIED_RENAMED_EXACT_BEHAVIOR@))
        + "\nverified_renamed_stable_prototype_anchor_pattern: "@ + decimal(
        reason_count(links, VERIFIED_RENAMED_STABLE_PROTO_ANCHOR@),
    ) + "\nverified_rare_anchors_stable_shape: "@ + decimal(reason_count(links, VERIFIED_RARE_ANCHORS_STABLE_SHAPE@))
        + "\nverified_call_graph_neighborhood: "@ + decimal(reason_count(links, VERIFIED_CALL_GRAPH_NEIGHBORHOOD@))
        + "\ncall_graph_verify_passes: "@ + decimal(passes as nat) + "\nrare_anchor_max_frequency: "@ + decimal(
        RARE_ANCHOR_MAX_FREQUENCY as nat,
    ) + "\n"@
}

proof fn lemma_reason_count_bound(links: Seq<ClassLink>, r: Seq<char>)
    ensures
        reason_count(links, r) <= links.len(),
    decreases links.len(),
{
    if links.len() > 0 {
        lemma_reason_count_bound(links.drop_last(), r);
    }
}

/// How many of `links` give the reason `reason`.
pub fn count_reason(links: &[ClassLink], reason: &str) -> (n: usize)
    ensures
        n == reason_count(links@, reason@),
{
    let wanted = reason.to_string();
    let mut n: usize = 0;
    let mut i: usize = 0;
    while i < links.len()
        invariant
            i <= links.len(),
            wanted@ == reason@,
            n == reason_count(links@.take(i as int), reason@),
        decreases links.len() - i,
    {
        proof {
            assert(links@.take(i + 1).drop_last() =~= links@.take(i as int));
            assert(links@.take(i + 1).last() == links@[i as int]);
            lemma_reason_count_bound(links@.take(i as int), reason@);
        }
        let reasons = &links[i].reasons;
        let mut found = false;
        let mut k: usize = 0;
        while k < reasons.len()
            invariant
                k <= reasons.len(),
                wanted@ == reason@,
                found == strs(reasons@.take(k as int)).contains(reason@),
            decreases reasons.len() - k,
        {
            let ghost prev = strs(reasons@.take(k as int));
            let ghost y = reasons@[k as int]@;
            proof {
                assert(strs(reasons@.take(k + 1)) =~= prev.push(y));
                assert(prev.push(y)[prev.len() as int] == y);
                assert forall|r: Seq<char>| prev.push(y).contains(r) <==> (prev.contains(r) || y == r) by {
                    if prev.contains(r) {
                        let j = choose|j: int| 0 <= j < prev.len() && prev[j] == r;
                        assert(prev.push(y)[j] == r);
                    }
                    if prev.push(y).contains(r) {
                        let j = choose|j: int| 0 <= j < prev.push(y).len() && prev.push(y)[j] == r;
                        if j < prev.len() {
                            assert(prev[j] == r);
                        }
                    }
                }
            }
            if reasons[k] == wanted {
                found = true;
            }
            k = k + 1;
        }
        proof {
            assert(reasons@.take(reasons@.len() as int) =~= reasons@);
        }
        if found {
            n = n + 1;
        }
        i = i + 1;
    }
    proof {
        assert(links@.take(links@.len() as int) =~= links@);
    }
    n
}

/// How many of `links` have the status `status`.
pub fn count_status(links: &[ClassLink], status: MatchStatus) -> (n: usize)
    ensures
        n == status_count(link_statuses(links@), status),
{
    let mut n: usize = 0;
    let mut i: usize = 0;
    while i < links.len()
        invariant
            i <= links.len(),
            n == status_count(link_statuses(links@.take(i as int)), status),
        decreases links.len() - i,
    {
        proof {
            assert(link_statuses(links@.take(i + 1)).drop_last() =~= link_statuses(links@.take(i as int)));
            assert(link_statuses(links@.take(i + 1)).last() == links@[i as int].status);
            lemma_status_count_bound(link_statuses(links@.take(i as int)), status);
        }
        if links[i].status == status {
            n = n + 1;
        }
        i = i + 1;
    }
    proof {
        assert(links@.take(links@.len() as int) =~= links@);
    }
    n
}

fn push_line(s: &mut String, name: &str, n: usize)
    ensures
        final(s)@ == old(s)@ + name@ + decimal(n as nat),
{
    push_str(s, name);
    push_decimal(s, n as u64);
}

/// The summary of a comparison of `old_app` with `new_app`, whose class matches are `links`
/// and whose call-graph check made up to `passes` passes; the confidence thresholds, which are
/// fractions, come after it.
pub fn summary_text(old_app: &AppModel, new_app: &AppModel, links: &[ClassLink], passes: usize) -> (r: String)
    ensures
        r@ == summary_head(*old_app, *new_app, links@, passes),
{
    let mut s = String::new();
    push_str(&mut s, "old_apk: ");
    push_str(&mut s, old_app.apk_name.as_str());
    push_str(&mut s, "\nnew_apk: ");
    push_str(&mut s, new_app.apk_name.as_str());
    push_line(&mut s, "\nold_classes: ", old_app.classes.len());
    push_line(&mut s, "\nnew_classes: ", new_app.classes.len());
    push_line(&mut s, "\nold_apk_parts: ", old_app.coverage.apk_parts);
    push_line(&mut s, "\nnew_apk_parts: ", new_app.coverage.apk_parts);
    push_line(&mut s, "\nold_dex_files: ", old_app.coverage.dex_files);
    push_line(&mut s, "\nnew_dex_files: ", new_app.coverage.dex_files);
    push_line(&mut s, "\nold_warnings: ", old_app.coverage.warnings.len());
    push_line(&mut s, "\nnew_warnings: ", new_app.coverage.warnings.len());
    push_line(&mut s, "\nmatched_classes: ", count_status(links, MatchStatus::Matched));
    push_line(&mut s, "\nlow_confidence_classes: ", count_status(links, MatchStatus::LowConfidence));
    push_line(&mut s, "\nconflict_classes: ", count_status(links, MatchStatus::Conflict));
    push_line(&mut s, "\nsemantic_break_classes: ", count_status(links, MatchStatus::SemanticBreak));
    push_line(&mut s, "\nunresolved_old_classes: ", count_status(links, MatchStatus::UnresolvedOld));
    push_line(&mut s, "\nunresolved_new_classes: ", count_status(links, MatchStatus::UnresolvedNew));
    push_line(
        &mut s,
        "\nverified_exact_class_fingerprint: ",
        count_reason(links, VERIFIED_EXACT_CLASS_FINGERPRINT),
    );
    push_line(
        &mut s,
        "\nverified_exact_descriptor_stable_api_shape: ",
        count_reason(links, VERIFIED_EXACT_DESCRIPTOR_STABLE_API),
    );
    push_line(
        &mut s,
        "\nverified_exact_descriptor_stable_code_pattern: ",
        count_reason(links, VERIFIED_EXACT_DESCRIPTOR_STABLE_CODE),
    );
    push_line(
        &mut s,
        "\nverified_exact_descriptor_stable_proto_code_pattern: ",
        count_reason(links, VERIFIED_EXACT_DESCRIPTOR_STABLE_PROTO_CODE),
    );
    push_line(
        &mut s,
        "\nverified_renamed_exact_behavior_pattern: ",
        count_reason(links, VERIFIED_RENAMED_EXACT_BEHAVIOR),
    );
    push_line(
        &mut s,
        "\nverified_renamed_stable_prototype_anchor_pattern: ",
        count_reason(links, VERIFIED_RENAMED_STABLE_PROTO_ANCHOR),
    );
    push_line(
        &mut s,
        "\nverified_rare_anchors_stable_shape: ",
        count_reason(links, VERIFIED_RARE_ANCHORS_STABLE_SHAPE),
    );
    push_line(
        &mut s,
        "\nverified_call_graph_neighborhood: ",
        count_reason(links, VERIFIED_CALL_GRAPH_NEIGHBORHOOD),
    );
    push_line(&mut s, "\ncall_graph_verify_passes: ", passes);
    push_line(&mut s, "\nrare_anchor_max_frequency: ", RARE_ANCHOR_MAX_FREQUENCY);
    push_str(&mut s, "\n");
    s
}

} // verus!
