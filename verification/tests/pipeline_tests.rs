use portalz_integrator::codec::encode;
use portalz_integrator::pipeline::{encode_workflow, plan_message, PersistRecord};
use portalz_integrator::parse::DecodeError;

const SCENARIO: &[u8] = b"{\"name\":\"orders-api\",\"db_name\":\"orders\",\"tables\":[{\"name\":\"orders\",\"columns\":[{\"name\":\"id\",\"db_type\":{\"type\":\"Uuid\"},\"is_nullable\":false}]}]}";

#[test]
fn scenario_plan_persists_and_dispatches_once() {
    let plan = plan_message(SCENARIO);
    assert!(plan.ack);
    let d = plan.decoded.expect("scenario payload decodes");
    assert_eq!(d.name, "orders-api");

    let rec = plan.persist.expect("one row is persisted");
    assert_eq!(rec.name, "orders-api");
    assert_eq!(rec.spec.as_bytes(), SCENARIO);
    assert_eq!(rec.project_id, "92ce5187-8d93-40de-a50f-91137cb467f9");
    assert_eq!(rec.created_by, "db1e7024-e6b8-4c4c-bee1-23e3808963a1");

    let w = plan.dispatch.expect("one workflow run is dispatched");
    assert_eq!(w.reference, "main");
    assert_eq!(w.inputs.id, "8d79a9f9-afd3-4d5d-8403-3fecbff98dbb");
    // The specs_file input re-encodes the same structure.
    assert_eq!(w.inputs.specs_file.as_bytes(), SCENARIO);
    assert_eq!(w.inputs.specs_file, encode(&d));
}

#[test]
fn failed_decode_still_acknowledges_and_does_nothing_else() {
    let plan = plan_message(b"garbage");
    assert!(plan.ack);
    assert_eq!(plan.decoded.unwrap_err(), DecodeError::MalformedDocument);
    assert!(plan.persist.is_none());
    assert!(plan.dispatch.is_none());
}

#[test]
fn invalid_utf8_still_acknowledges() {
    let plan = plan_message(&[0xc3, 0x28]);
    assert!(plan.ack);
    assert_eq!(plan.decoded.unwrap_err(), DecodeError::InvalidUtf8);
    assert!(plan.persist.is_none());
    assert!(plan.dispatch.is_none());
}

#[test]
fn duplicate_delivery_persists_two_rows() {
    // The pipeline keeps no state across messages: the same payload twice
    // yields two equal rows and two equal dispatch calls, not one.
    let mut store: Vec<PersistRecord> = Vec::new();
    let mut dispatched: Vec<String> = Vec::new();
    for _ in 0..2 {
        let plan = plan_message(SCENARIO);
        if let Some(rec) = plan.persist {
            store.push(rec);
        }
        if let Some(w) = plan.dispatch {
            dispatched.push(encode_workflow(&w));
        }
        assert!(plan.ack);
    }
    assert_eq!(store.len(), 2);
    assert_eq!(store[0].name, store[1].name);
    assert_eq!(store[0].spec, store[1].spec);
    assert_eq!(dispatched.len(), 2);
    assert_eq!(dispatched[0], dispatched[1]);
}

#[test]
fn workflow_body_escapes_the_embedded_document() {
    let plan = plan_message(b"{\"name\":\"a\",\"db_name\":\"\",\"tables\":[]}");
    let w = plan.dispatch.expect("decodable payload dispatches");
    let body = encode_workflow(&w);
    assert_eq!(
        body,
        "{\"ref\":\"main\",\"inputs\":{\"specs_file\":\"{\\\"name\\\":\\\"a\\\",\\\"db_name\\\":\\\"\\\",\\\"tables\\\":[]}\",\"id\":\"8d79a9f9-afd3-4d5d-8403-3fecbff98dbb\"}}"
    );
}
