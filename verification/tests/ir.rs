use std::cell::RefCell;

use uni::audit::{AuditSink, AuditedDocument, NoopSink};
use uni::coherence::IrDefect;
use uni::diff::diff;
use uni::ir::{Document, Edit, IrError, Mutation, Origin};
use uni::node::{Node, NodeId, NodeTable};
use uni::value::{Action, Binding, Value};

struct Collect {
    seen: RefCell<Vec<(Origin, String)>>,
}

impl AuditSink for Collect {
    type Kept = ();

    fn record(&mut self, edit: &Edit) {
        let tag = match &edit.mutation {
            Mutation::CreateNode { .. } => "CreateNode",
            Mutation::SetRoot { .. } => "SetRoot",
            Mutation::SetProp { .. } => "SetProp",
            Mutation::AppendChild { .. } => "AppendChild",
            _ => "other",
        };
        self.seen.borrow_mut().push((edit.origin, tag.to_string()));
    }
}

#[test]
fn human_and_ai_edit_the_same_tree() {
    let mut doc = Document::new();

    let root = doc.fresh_id();
    doc.apply_from(
        Origin::Human,
        Mutation::CreateNode {
            id: root,
            kind: "Stack".into(),
        },
    )
    .unwrap();
    doc.apply_from(Origin::Human, Mutation::SetRoot { id: root })
        .unwrap();

    let label = doc.fresh_id();
    doc.apply_from(
        Origin::Ai,
        Mutation::CreateNode {
            id: label,
            kind: "Text".into(),
        },
    )
    .unwrap();
    doc.apply_from(
        Origin::Ai,
        Mutation::SetProp {
            id: label,
            key: "content".into(),
            value: Value::Text("Hello".into()),
        },
    )
    .unwrap();
    doc.apply_from(
        Origin::Ai,
        Mutation::AppendChild {
            parent: root,
            child: label,
        },
    )
    .unwrap();

    assert_eq!(doc.root(), Some(root));
    assert_eq!(doc.len(), 2);
    assert_eq!(doc.get(root).unwrap().children, vec![label]);
    assert_eq!(doc.get(label).unwrap().parent, Some(root));
    assert_eq!(
        doc.get(label).unwrap().props.get("content"),
        Some(&Value::Text("Hello".into()))
    );

    let log = doc.audit_log();
    assert_eq!(log.len(), 5);
    assert_eq!(log[0].origin, Origin::Human);
    assert_eq!(log[2].origin, Origin::Ai);
    assert!(log.iter().filter(|e| e.origin == Origin::Ai).count() == 3);
}

#[test]
fn rejected_edits_do_not_pollute_the_log() {
    let mut doc = Document::new();
    let ghost = NodeId(999);
    let err = doc
        .apply_from(
            Origin::System,
            Mutation::SetProp {
                id: ghost,
                key: "x".into(),
                value: Value::Px(1.0f32.to_bits()),
            },
        )
        .unwrap_err();
    assert_eq!(err, IrError::NoSuchNode(ghost));
    assert!(doc.audit_log().is_empty());
}

#[test]
fn remove_child_detaches_without_deleting() {
    let mut doc = Document::new();
    let a = doc.fresh_id();
    let b = doc.fresh_id();
    doc.apply_from(
        Origin::System,
        Mutation::CreateNode {
            id: a,
            kind: "Stack".into(),
        },
    )
    .unwrap();
    doc.apply_from(
        Origin::System,
        Mutation::CreateNode {
            id: b,
            kind: "Rect".into(),
        },
    )
    .unwrap();
    doc.apply_from(
        Origin::System,
        Mutation::AppendChild {
            parent: a,
            child: b,
        },
    )
    .unwrap();
    doc.apply_from(
        Origin::System,
        Mutation::RemoveChild {
            parent: a,
            child: b,
        },
    )
    .unwrap();

    assert!(doc.get(a).unwrap().children.is_empty());
    assert_eq!(doc.get(b).unwrap().parent, None);
    assert!(doc.get(b).is_some(), "detached node still exists");
}

#[test]
fn fire_returns_action_and_audits_the_invocation() {
    let mut doc = Document::new();
    let btn = doc.fresh_id();
    doc.apply_from(
        Origin::Human,
        Mutation::CreateNode {
            id: btn,
            kind: "Button".into(),
        },
    )
    .unwrap();

    let action = Action {
        name: "submit".into(),
        args: vec![Value::Int(7)],
    };
    doc.apply_from(
        Origin::Human,
        Mutation::SetCallback {
            id: btn,
            event: "tap".into(),
            action: action.clone(),
        },
    )
    .unwrap();

    assert_eq!(doc.get(btn).unwrap().callbacks.get("tap"), Some(&action));

    let fired = doc.fire(btn, "tap", Origin::Human);
    assert_eq!(fired, Some(action.clone()));

    let fired_ai = doc.fire(btn, "tap", Origin::Ai);
    assert_eq!(fired_ai, Some(action.clone()));

    assert_eq!(doc.fire(btn, "nope", Origin::Ai), None);

    let invokes: Vec<&Edit> = doc
        .audit_log()
        .iter()
        .filter(|e| matches!(e.mutation, Mutation::Invoke { .. }))
        .collect();
    assert_eq!(invokes.len(), 2);
    assert_eq!(invokes[0].origin, Origin::Human);
    assert_eq!(invokes[1].origin, Origin::Ai);
    assert_eq!(
        invokes[0].mutation,
        Mutation::Invoke {
            id: btn,
            event: "tap".into()
        }
    );
}

#[test]
fn set_binding_stores_and_reads_alongside_literals() {
    let mut doc = Document::new();
    let n = doc.fresh_id();
    doc.apply_from(
        Origin::Ai,
        Mutation::CreateNode {
            id: n,
            kind: "Rect".into(),
        },
    )
    .unwrap();

    doc.apply_from(
        Origin::Ai,
        Mutation::SetProp {
            id: n,
            key: "width".into(),
            value: Value::Px(100.0f32.to_bits()),
        },
    )
    .unwrap();
    let binding = Binding {
        expr: "state.width".into(),
    };
    doc.apply_from(
        Origin::Ai,
        Mutation::SetBinding {
            id: n,
            key: "width".into(),
            binding: binding.clone(),
        },
    )
    .unwrap();

    assert_eq!(
        doc.get(n).unwrap().props.get("width"),
        Some(&Value::Px(100.0f32.to_bits()))
    );
    assert_eq!(doc.get(n).unwrap().bindings.get("width"), Some(&binding));
}

#[test]
fn undo_restores_state_and_is_logged() {
    let mut doc = Document::new();
    let n = doc.fresh_id();
    doc.apply_from(
        Origin::Human,
        Mutation::CreateNode {
            id: n,
            kind: "Rect".into(),
        },
    )
    .unwrap();
    doc.apply_from(Origin::Human, Mutation::SetRoot { id: n })
        .unwrap();

    let before = doc.clone();
    let log_len_before = doc.audit_log().len();

    doc.apply_from(
        Origin::Ai,
        Mutation::SetProp {
            id: n,
            key: "color".into(),
            value: Value::Color(0xFF0000FF),
        },
    )
    .unwrap();
    assert!(doc.get(n).unwrap().props.contains_key("color"));

    doc.undo_last(Origin::Human).unwrap();
    assert!(!doc.get(n).unwrap().props.contains_key("color"));

    assert_eq!(doc.get(n).unwrap().props, before.get(n).unwrap().props);
    assert_eq!(doc.audit_log().len(), log_len_before + 2);
    assert_eq!(doc.audit_log().last().unwrap().origin, Origin::Human);
}

#[test]
fn undo_restores_prior_value_and_inverts_structure() {
    let mut doc = Document::new();
    let parent = doc.fresh_id();
    let child = doc.fresh_id();
    doc.apply_from(
        Origin::System,
        Mutation::CreateNode {
            id: parent,
            kind: "Stack".into(),
        },
    )
    .unwrap();
    doc.apply_from(
        Origin::System,
        Mutation::CreateNode {
            id: child,
            kind: "Text".into(),
        },
    )
    .unwrap();

    doc.apply_from(
        Origin::Human,
        Mutation::SetProp {
            id: child,
            key: "size".into(),
            value: Value::Px(12.0f32.to_bits()),
        },
    )
    .unwrap();
    doc.apply_from(
        Origin::Ai,
        Mutation::SetProp {
            id: child,
            key: "size".into(),
            value: Value::Px(24.0f32.to_bits()),
        },
    )
    .unwrap();

    doc.undo_last(Origin::Human).unwrap();
    assert_eq!(
        doc.get(child).unwrap().props.get("size"),
        Some(&Value::Px(12.0f32.to_bits()))
    );

    doc.apply_from(Origin::Ai, Mutation::AppendChild { parent, child })
        .unwrap();
    assert_eq!(doc.get(parent).unwrap().children, vec![child]);
    doc.undo_last(Origin::Ai).unwrap();
    assert!(doc.get(parent).unwrap().children.is_empty());
    assert_eq!(doc.get(child).unwrap().parent, None);
}

#[test]
fn undo_reconstructs_a_removed_node() {
    let mut doc = Document::new();
    let n = doc.fresh_id();
    doc.apply_from(
        Origin::Human,
        Mutation::CreateNode {
            id: n,
            kind: "Rect".into(),
        },
    )
    .unwrap();
    doc.apply_from(
        Origin::Human,
        Mutation::SetProp {
            id: n,
            key: "w".into(),
            value: Value::Px(5.0f32.to_bits()),
        },
    )
    .unwrap();
    doc.apply_from(Origin::Human, Mutation::SetRoot { id: n })
        .unwrap();

    doc.apply_from(Origin::System, Mutation::RemoveNode { id: n })
        .unwrap();
    assert!(doc.get(n).is_none());
    assert_eq!(doc.root(), None);

    doc.undo_last(Origin::System).unwrap();
    let node = doc.get(n).expect("node reconstructed");
    assert_eq!(node.kind, "Rect");
    assert_eq!(node.props.get("w"), Some(&Value::Px(5.0f32.to_bits())));
    assert_eq!(doc.root(), Some(n), "root restored on reconstruct");
}

#[test]
fn verify_accepts_a_well_formed_document() {
    let mut doc = Document::new();
    let root = doc.fresh_id();
    let child = doc.fresh_id();
    doc.apply_from(
        Origin::Human,
        Mutation::CreateNode {
            id: root,
            kind: "Stack".into(),
        },
    )
    .unwrap();
    doc.apply_from(
        Origin::Human,
        Mutation::CreateNode {
            id: child,
            kind: "Text".into(),
        },
    )
    .unwrap();
    doc.apply_from(
        Origin::Human,
        Mutation::AppendChild {
            parent: root,
            child,
        },
    )
    .unwrap();
    doc.apply_from(Origin::Human, Mutation::SetRoot { id: root })
        .unwrap();

    assert_eq!(doc.verify(), Ok(()));
}

#[test]
fn verify_catches_hand_corruption() {
    let a = NodeId(0);
    let mut node = Node::new("Stack".into());
    node.children.push(NodeId(404));
    let mut nodes = NodeTable::new();
    nodes.put(a, node);
    let doc = Document::from_parts(nodes, None, 1, Vec::new());
    assert_eq!(
        doc.verify(),
        Err(vec![IrDefect::ChildMissing {
            parent: a,
            child: NodeId(404)
        }])
    );

    let p = NodeId(0);
    let c = NodeId(1);
    let mut node = Node::new("Rect".into());
    node.parent = Some(p);
    let mut nodes = NodeTable::new();
    nodes.put(p, Node::new("Stack".into()));
    nodes.put(c, node);
    let doc = Document::from_parts(nodes, None, 2, Vec::new());
    assert_eq!(
        doc.verify(),
        Err(vec![IrDefect::BackrefMismatch {
            parent: p,
            child: c
        }])
    );

    let n = NodeId(0);
    let mut node = Node::new("Rect".into());
    node.parent = Some(NodeId(777));
    let mut nodes = NodeTable::new();
    nodes.put(n, node);
    let doc = Document::from_parts(nodes, None, 1, Vec::new());
    assert_eq!(
        doc.verify(),
        Err(vec![IrDefect::DanglingParent {
            node: n,
            parent: NodeId(777)
        }])
    );

    let doc = Document::from_parts(NodeTable::new(), Some(NodeId(13)), 0, Vec::new());
    assert_eq!(
        doc.verify(),
        Err(vec![IrDefect::RootMissing { root: NodeId(13) }])
    );

    let x = NodeId(0);
    let mut node = Node::new("Stack".into());
    node.parent = Some(x);
    node.children.push(x);
    let mut nodes = NodeTable::new();
    nodes.put(x, node);
    let doc = Document::from_parts(nodes, None, 1, Vec::new());
    let defects = doc.verify().unwrap_err();
    assert!(
        defects.contains(&IrDefect::Cycle { node: x }),
        "cycle reported: {defects:?}"
    );
}

#[test]
fn audit_sink_receives_edits_in_order_with_origin() {

    let mut sink = Collect {
        seen: RefCell::new(Vec::new()),
    };

    let mut adoc = AuditedDocument::new(Document::new(), &mut sink);
    let root = adoc.fresh_id();
    adoc.apply_from(
        Origin::Human,
        Mutation::CreateNode {
            id: root,
            kind: "Stack".into(),
        },
    )
    .unwrap();
    adoc.apply_from(Origin::Human, Mutation::SetRoot { id: root })
        .unwrap();
    let label = adoc.fresh_id();
    adoc.apply_from(
        Origin::Ai,
        Mutation::CreateNode {
            id: label,
            kind: "Text".into(),
        },
    )
    .unwrap();
    adoc.apply_from(
        Origin::Ai,
        Mutation::AppendChild {
            parent: root,
            child: label,
        },
    )
    .unwrap();

    let err = adoc.apply_from(
        Origin::System,
        Mutation::SetProp {
            id: NodeId(9999),
            key: "x".into(),
            value: Value::Int(0),
        },
    );
    assert!(err.is_err());

    let doc = adoc.into_inner();
    assert_eq!(
        *sink.seen.borrow(),
        vec![
            (Origin::Human, "CreateNode".to_string()),
            (Origin::Human, "SetRoot".to_string()),
            (Origin::Ai, "CreateNode".to_string()),
            (Origin::Ai, "AppendChild".to_string()),
        ]
    );

    assert_eq!(doc.len(), 2);
    assert_eq!(doc.verify(), Ok(()));

    let mut replay = Collect {
        seen: RefCell::new(Vec::new()),
    };
    doc.replay_to(&mut replay);
    assert_eq!(replay.seen.borrow().len(), 4);

    doc.replay_to(&mut NoopSink);
}

#[test]
fn diff_then_apply_reproduces_new() {
    let mut old = Document::new();
    let root = old.fresh_id();
    let keep = old.fresh_id();
    let drop = old.fresh_id();
    old.apply_from(
        Origin::Human,
        Mutation::CreateNode {
            id: root,
            kind: "Stack".into(),
        },
    )
    .unwrap();
    old.apply_from(
        Origin::Human,
        Mutation::CreateNode {
            id: keep,
            kind: "Text".into(),
        },
    )
    .unwrap();
    old.apply_from(
        Origin::Human,
        Mutation::CreateNode {
            id: drop,
            kind: "Rect".into(),
        },
    )
    .unwrap();
    old.apply_from(
        Origin::Human,
        Mutation::SetProp {
            id: keep,
            key: "size".into(),
            value: Value::Px(12.0f32.to_bits()),
        },
    )
    .unwrap();
    old.apply_from(
        Origin::Human,
        Mutation::SetCallback {
            id: keep,
            event: "tap".into(),
            action: Action {
                name: "old".into(),
                args: vec![],
            },
        },
    )
    .unwrap();
    old.apply_from(
        Origin::Human,
        Mutation::AppendChild {
            parent: root,
            child: keep,
        },
    )
    .unwrap();
    old.apply_from(
        Origin::Human,
        Mutation::AppendChild {
            parent: root,
            child: drop,
        },
    )
    .unwrap();
    old.apply_from(Origin::Human, Mutation::SetRoot { id: root })
        .unwrap();

    let mut new = old.clone();
    new.apply_from(
        Origin::Ai,
        Mutation::RemoveChild {
            parent: root,
            child: drop,
        },
    )
    .unwrap();
    new.apply_from(Origin::Ai, Mutation::RemoveNode { id: drop })
        .unwrap();
    new.apply_from(
        Origin::Ai,
        Mutation::SetProp {
            id: keep,
            key: "size".into(),
            value: Value::Px(24.0f32.to_bits()),
        },
    )
    .unwrap();
    new.apply_from(
        Origin::Ai,
        Mutation::RemoveCallback {
            id: keep,
            event: "tap".into(),
        },
    )
    .unwrap();
    new.apply_from(
        Origin::Ai,
        Mutation::SetBinding {
            id: keep,
            key: "size".into(),
            binding: Binding {
                expr: "state.s".into(),
            },
        },
    )
    .unwrap();
    let fresh = new.fresh_id();
    new.apply_from(
        Origin::Ai,
        Mutation::CreateNode {
            id: fresh,
            kind: "Panel".into(),
        },
    )
    .unwrap();
    new.apply_from(
        Origin::Ai,
        Mutation::SetProp {
            id: fresh,
            key: "title".into(),
            value: Value::Text("hi".into()),
        },
    )
    .unwrap();
    new.apply_from(
        Origin::Ai,
        Mutation::AppendChild {
            parent: fresh,
            child: root,
        },
    )
    .unwrap();
    new.apply_from(Origin::Ai, Mutation::SetRoot { id: fresh })
        .unwrap();

    let muts = diff(&old, &new);
    let mut rebuilt = old.clone();
    for m in muts {
        rebuilt
            .apply_from(Origin::System, m)
            .expect("diff mutation applies cleanly");
    }

    assert_eq!(rebuilt.root(), new.root());
    assert_eq!(rebuilt.len(), new.len());
    for id in [root, keep, fresh] {
        assert_eq!(rebuilt.get(id), new.get(id), "node {id:?} mismatch");
    }
    assert!(rebuilt.get(drop).is_none(), "dropped node gone");
    assert_eq!(rebuilt.verify(), Ok(()));
}

#[test]
fn a_refused_edit_never_reaches_the_sink() {
    let mut sink = Collect { seen: RefCell::new(vec![]) };
    let mut doc = AuditedDocument::new(Document::new(), &mut sink);
    let id = doc.fresh_id();
    assert!(doc.apply_from(Origin::Ai, Mutation::SetRoot { id }).is_err());
    doc.apply_from(Origin::Ai, Mutation::CreateNode { id, kind: "Text".into() }).unwrap();
    doc.apply_from(Origin::Human, Mutation::SetRoot { id }).unwrap();
    assert!(doc.apply_from(Origin::Ai, Mutation::AppendChild { parent: id, child: id }).is_err());
    let doc = doc.into_inner();
    let handed = vec![(Origin::Ai, "CreateNode".to_string()), (Origin::Human, "SetRoot".to_string())];
    assert_eq!(*sink.seen.borrow(), handed);
    sink.seen.borrow_mut().clear();
    doc.replay_to(&mut sink);
    assert_eq!(*sink.seen.borrow(), handed);
}

#[test]
fn a_mirror_has_what_a_replay_gives() {
    let mut live = Collect { seen: RefCell::new(vec![]) };
    let mut doc = AuditedDocument::new(Document::new(), &mut live);
    let (a, b) = (doc.fresh_id(), doc.fresh_id());
    doc.apply_from(Origin::Human, Mutation::CreateNode { id: a, kind: "Stack".into() }).unwrap();
    doc.apply_from(Origin::Ai, Mutation::CreateNode { id: b, kind: "Text".into() }).unwrap();
    doc.apply_from(Origin::Ai, Mutation::AppendChild { parent: a, child: b }).unwrap();
    assert!(doc.apply_from(Origin::Ai, Mutation::AppendChild { parent: b, child: a }).is_err());
    doc.apply_from(Origin::System, Mutation::SetRoot { id: a }).unwrap();
    let doc = doc.into_inner();
    let mut later = Collect { seen: RefCell::new(vec![]) };
    doc.replay_to(&mut later);
    assert_eq!(live.seen, later.seen);
    let origins: Vec<Origin> = later.seen.borrow().iter().map(|e| e.0).collect();
    assert_eq!(origins, vec![Origin::Human, Origin::Ai, Origin::Ai, Origin::System]);
}
