//! Per-message pipeline decisions.
//!
//! For each queue message the pipeline decodes the payload and, on success,
//! persists one row and triggers one downstream workflow run; the message is
//! acknowledged no matter what happened. `plan_message` computes the whole of
//! that decision as a plain value — what to write, what to send, and that the
//! message is to be acknowledged — so the transports around the library only
//! carry it out. Failures of the persist or dispatch transports are logged by
//! the caller and change nothing here: the plan never retries and never
//! withholds the acknowledgment.

use vstd::prelude::*;
use vstd::string::StringExecFns;
use vstd::utf8::{valid_utf8, encode_utf8};
use crate::models::{wf_decl, ApiDeclaration, DeclModel};
use crate::codec::{enc_decl, enc_string, encode, emit_lit, emit_string};
use crate::parse::{decode, DecodeError};
use crate::text::chars_to_string;

verus! {

/// One row for the relational store: the declaration's name, its wire form,
/// and the two deployment-fixed foreign identifiers.
pub struct PersistRecord {
    pub name: String,
    pub spec: String,
    pub project_id: String,
    pub created_by: String,
}

/// The `inputs` object of a workflow-dispatch request.
pub struct WorkflowInputs {
    pub specs_file: String,
    pub id: String,
}

/// A downstream workflow-dispatch request: the fixed branch reference and
/// the inputs derived from the declaration.
pub struct WorkflowParameters {
    pub reference: String,
    pub inputs: WorkflowInputs,
}

/// Everything the pipeline decides for one message: the decode outcome, at
/// most one row to persist, at most one workflow run to trigger, and whether
/// to acknowledge (always).
pub struct MessagePlan {
    pub decoded: Result<ApiDeclaration, DecodeError>,
    pub persist: Option<PersistRecord>,
    pub dispatch: Option<WorkflowParameters>,
    pub ack: bool,
}

/// The JSON body of a workflow-dispatch request.
pub open spec fn enc_workflow(reference: Seq<char>, specs: Seq<char>, id: Seq<char>) -> Seq<char> {
    "{\"ref\":"@ + enc_string(reference) + ",\"inputs\":{\"specs_file\":"@ + enc_string(specs)
        + ",\"id\":"@ + enc_string(id) + "}}"@
}

/// Everything `plan_message` promises of the plan for a payload.
pub open spec fn plan_obligations(body: Seq<u8>, p: MessagePlan) -> bool {
    &&& p.ack
    &&& (p.decoded matches Ok(d) ==> wf_decl(d@) && body == encode_utf8(enc_decl(d@)))
    &&& (forall|m: DeclModel|
        wf_decl(m) && body == encode_utf8(enc_decl(m)) ==> (p.decoded matches Ok(d) && d@ == m))
    &&& ((p.decoded matches Err(e) && e is InvalidUtf8) <==> !valid_utf8(body))
    &&& (p.decoded matches Ok(d) ==> (p.persist matches Some(rec) && rec.name@ == d.name@
        && rec.spec@ == enc_decl(d@) && rec.project_id@
        == "92ce5187-8d93-40de-a50f-91137cb467f9"@ && rec.created_by@
        == "db1e7024-e6b8-4c4c-bee1-23e3808963a1"@))
    &&& (p.decoded matches Ok(d) ==> (p.dispatch matches Some(w) && w.reference@ == "main"@
        && w.inputs.specs_file@ == enc_decl(d@) && w.inputs.id@
        == "8d79a9f9-afd3-4d5d-8403-3fecbff98dbb"@))
    &&& (p.decoded is Err ==> p.persist is None && p.dispatch is None)
}

/// The pipeline's whole decision for one message payload.
///
/// The plan always acknowledges. When the payload decodes, it persists
/// exactly one row — the declaration's name, its re-encoded wire form, and
/// the fixed project and author identifiers — and dispatches exactly one
/// workflow run whose `specs_file` input is that same wire form. When the
/// payload does not decode, nothing is persisted and nothing is dispatched.
pub fn plan_message(body: &[u8]) -> (p: MessagePlan)
    ensures
        plan_obligations(body@, p),
{
    let decoded = decode(body);
    match decoded {
        Ok(d) => {
            let spec_json = encode(&d);
            let spec_copy = spec_json.clone();
            let name_copy = d.name.clone();
            let rec = PersistRecord {
                name: name_copy,
                spec: spec_copy,
                project_id: String::from_str("92ce5187-8d93-40de-a50f-91137cb467f9"),
                created_by: String::from_str("db1e7024-e6b8-4c4c-bee1-23e3808963a1"),
            };
            let w = WorkflowParameters {
                reference: String::from_str("main"),
                inputs: WorkflowInputs {
                    specs_file: spec_json,
                    id: String::from_str("8d79a9f9-afd3-4d5d-8403-3fecbff98dbb"),
                },
            };
            MessagePlan { decoded: Ok(d), persist: Some(rec), dispatch: Some(w), ack: true }
        },
        Err(e) => MessagePlan { decoded: Err(e), persist: None, dispatch: None, ack: true },
    }
}

/// The JSON body sent to the workflow-dispatch endpoint. The declaration's
/// own document travels inside the `specs_file` string, so its quotes are
/// escaped here and unescaped by the receiver.
pub fn encode_workflow(w: &WorkflowParameters) -> (s: String)
    ensures
        s@ == enc_workflow(w.reference@, w.inputs.specs_file@, w.inputs.id@),
{
    let mut out: Vec<char> = Vec::new();
    emit_lit(&mut out, "{\"ref\":");
    emit_string(&mut out, w.reference.as_str());
    emit_lit(&mut out, ",\"inputs\":{\"specs_file\":");
    emit_string(&mut out, w.inputs.specs_file.as_str());
    emit_lit(&mut out, ",\"id\":");
    emit_string(&mut out, w.inputs.id.as_str());
    emit_lit(&mut out, "}}");
    proof {
        assert(out@ =~= enc_workflow(w.reference@, w.inputs.specs_file@, w.inputs.id@));
    }
    chars_to_string(&out)
}

/// Acknowledgment-always: whatever the payload was, the plan acknowledges
/// the message; and when the payload did not decode, the plan performs no
/// persistence and no dispatch.
pub proof fn lemma_ack_always(body: Seq<u8>, p: MessagePlan)
    requires
        plan_obligations(body, p),
    ensures
        p.ack,
        p.decoded is Err ==> p.persist is None && p.dispatch is None,
{
}

/// Duplicate delivery is not deduplicated: the pipeline keeps no state
/// across messages, so two deliveries of one decodable payload produce two
/// plans with equal rows to persist and equal workflow runs to dispatch —
/// two rows and two calls, not one.
pub proof fn lemma_duplicate_delivery(
    body: Seq<u8>,
    p1: MessagePlan,
    p2: MessagePlan,
    m: DeclModel,
)
    requires
        plan_obligations(body, p1),
        plan_obligations(body, p2),
        wf_decl(m),
        body == encode_utf8(enc_decl(m)),
    ensures
        p1.persist matches Some(r1) && (p2.persist matches Some(r2) && r1.name@ == r2.name@
            && r1.spec@ == r2.spec@ && r1.project_id@ == r2.project_id@ && r1.created_by@
            == r2.created_by@),
        p1.dispatch matches Some(w1) && (p2.dispatch matches Some(w2) && w1.reference@
            == w2.reference@ && w1.inputs.specs_file@ == w2.inputs.specs_file@ && w1.inputs.id@
            == w2.inputs.id@),
{
    assert(p1.decoded matches Ok(d) && d@ == m);
    assert(p2.decoded matches Ok(d) && d@ == m);
}

} // verus!
