//! Contextual AI actions on a selection.

use nexacore_ui::ai_actions::{
    applicable_actions, authorize, prepare_action, request_action, restore_result, seal_action,
    ActionCapability, ActionDenied, ActionError, ActionKind, ActionTokenizer, AiAction,
    AiActionRequest, InputKind, LatencyClass, RouteTier, RoutedAction, SelectionInput, TierRouter,
    TokenizationUnavailable,
};
use nexacore_ui::edit::TextBuffer;

#[test]
fn text_selection_captured_from_buffer() {
    let mut buf = TextBuffer::from_text("hello world");
    buf.select_range(6, 11);
    let input = SelectionInput::from_text_selection(&buf).unwrap();
    assert_eq!(input, SelectionInput::Text("world".to_string()));
    assert_eq!(input.kind(), InputKind::Text);
}

#[test]
fn no_selection_captures_nothing() {
    let buf = TextBuffer::from_text("hello");
    assert!(SelectionInput::from_text_selection(&buf).is_none());
}

#[test]
fn text_offers_the_full_action_set_including_translate() {
    let input = SelectionInput::Text("ciao".to_string());
    let actions = applicable_actions(&input);
    assert!(actions.contains(&AiAction::Summarize));
    assert!(actions.iter().any(|a| a.kind() == ActionKind::Translate));
    assert!(actions.contains(&AiAction::Act));
}

#[test]
fn image_and_file_omit_translate() {
    let img = SelectionInput::image("image/png", &[1, 2, 3]);
    let file = SelectionInput::file("/docs/a.pdf", "application/pdf");
    for input in [img, file] {
        let actions = applicable_actions(&input);
        assert!(
            !actions.iter().any(|a| a.kind() == ActionKind::Translate),
            "translate should not be offered for {:?}",
            input.kind()
        );
        assert!(actions.contains(&AiAction::Extract)); // OCR / structured pull
    }
}

#[test]
fn action_labels_are_present() {
    assert_eq!(AiAction::Summarize.label(), "Riassumi");
    assert_eq!(AiAction::Custom("Ripara".to_string()).label(), "Ripara");
}

#[test]
fn translate_kind_drops_the_language_param() {
    assert_eq!(
        AiAction::Translate("en".to_string()).kind(),
        ActionKind::Translate
    );
    assert_eq!(
        AiAction::Translate("de".to_string()).kind(),
        ActionKind::Translate
    );
}

#[test]
fn authorize_requires_the_capability_grant() {
    let input = SelectionInput::Text("x".to_string());
    let cap = ActionCapability::new("editor").grant(ActionKind::Summarize);
    assert_eq!(authorize(&cap, &AiAction::Summarize, &input), Ok(()));
    // Rewrite was not granted.
    assert_eq!(
        authorize(&cap, &AiAction::Rewrite, &input),
        Err(ActionDenied::NotPermitted)
    );
}

#[test]
fn authorize_rejects_empty_selection_first() {
    let input = SelectionInput::Text(String::new());
    let cap = ActionCapability::new("editor").grant_all();
    assert_eq!(
        authorize(&cap, &AiAction::Summarize, &input),
        Err(ActionDenied::EmptySelection)
    );
}

#[test]
fn empty_image_is_empty_but_file_is_not() {
    assert!(SelectionInput::image("image/png", &[]).is_empty());
    assert!(!SelectionInput::file("/a", "text/plain").is_empty());
}

#[test]
fn grant_all_permits_every_kind() {
    let cap = ActionCapability::new("nexacore-editor").grant_all();
    assert_eq!(cap.app_id(), "nexacore-editor");
    for kind in [
        ActionKind::Summarize,
        ActionKind::Translate,
        ActionKind::Explain,
        ActionKind::Rewrite,
        ActionKind::Extract,
        ActionKind::Act,
        ActionKind::Custom,
    ] {
        assert!(cap.allows(kind));
    }
}

/// A router pinned to one tier, for asserting the egress gate.
struct FixedRouter(RouteTier);
impl TierRouter for FixedRouter {
    fn route(&self, _request: &AiActionRequest) -> RouteTier {
        self.0
    }
}

/// A tokeniser that brackets text with `TOK(..)` on egress and strips it on
/// ingress; `available` toggles the fail-closed path.
struct FakeTokenizer {
    available: bool,
}
impl ActionTokenizer for FakeTokenizer {
    fn tokenize_egress(
        &self,
        input: &SelectionInput,
    ) -> Result<SelectionInput, TokenizationUnavailable> {
        if !self.available {
            return Err(TokenizationUnavailable);
        }
        match input {
            SelectionInput::Text(t) => Ok(SelectionInput::Text(format!("TOK({t})"))),
            other => Ok(other.clone()),
        }
    }
    fn detokenize_ingress(&self, output: &str) -> String {
        output
            .strip_prefix("TOK(")
            .and_then(|s| s.strip_suffix(')'))
            .map_or_else(|| output.to_string(), ToString::to_string)
    }
}

fn editor_cap() -> ActionCapability {
    ActionCapability::new("nexacore-editor").grant_all()
}

#[test]
fn latency_class_is_batch_only_for_act() {
    assert_eq!(AiAction::Act.latency_class(), LatencyClass::Batch);
    for a in [
        AiAction::Summarize,
        AiAction::Translate("en".to_string()),
        AiAction::Explain,
        AiAction::Rewrite,
        AiAction::Extract,
    ] {
        assert_eq!(a.latency_class(), LatencyClass::Interactive);
    }
}

#[test]
fn route_tier_badges_match_ws5_05() {
    assert_eq!(RouteTier::Local.badge(), "local");
    assert_eq!(RouteTier::PersonalCluster.badge(), "personal-cluster");
    assert_eq!(RouteTier::FederatedMesh.badge(), "mesh");
    assert_eq!(RouteTier::Cloud.badge(), "cloud");
    assert!(RouteTier::Local.is_on_device());
    assert!(!RouteTier::Cloud.is_on_device());
}

#[test]
fn prepare_action_authorizes_before_routing() {
    let cap = ActionCapability::new("editor").grant(ActionKind::Summarize);
    let input = SelectionInput::Text("secret note".to_string());
    let router = FixedRouter(RouteTier::Local);
    let tok = FakeTokenizer { available: true };
    // Rewrite was never granted → denied before any routing happens.
    assert_eq!(
        prepare_action(&cap, AiAction::Rewrite, input, &router, &tok),
        Err(ActionError::Denied(ActionDenied::NotPermitted))
    );
}

#[test]
fn on_device_routing_leaves_selection_untokenized() {
    let input = SelectionInput::Text("private data".to_string());
    let router = FixedRouter(RouteTier::Local);
    let tok = FakeTokenizer { available: true };
    let prepared = prepare_action(
        &editor_cap(),
        AiAction::Summarize,
        input.clone(),
        &router,
        &tok,
    )
    .unwrap();
    assert_eq!(prepared.tier, RouteTier::Local);
    assert_eq!(prepared.request.input, input); // raw text stayed raw on-device
    assert_eq!(prepared.request.latency, LatencyClass::Interactive);
}

#[test]
fn off_device_routing_tokenizes_selection_on_egress() {
    let input = SelectionInput::Text("alice@example.com".to_string());
    let router = FixedRouter(RouteTier::Cloud);
    let tok = FakeTokenizer { available: true };
    let prepared =
        prepare_action(&editor_cap(), AiAction::Summarize, input, &router, &tok).unwrap();
    assert_eq!(prepared.tier, RouteTier::Cloud);
    // The selection was sanitised before it could leave the device.
    assert_eq!(
        prepared.request.input,
        SelectionInput::Text("TOK(alice@example.com)".to_string())
    );
}

#[test]
fn off_device_routing_fails_closed_when_tokenizer_unavailable() {
    let input = SelectionInput::Text("ssn 123-45-6789".to_string());
    let router = FixedRouter(RouteTier::FederatedMesh);
    let tok = FakeTokenizer { available: false };
    // Pipeline down + off-device tier ⇒ refuse, never send raw PII out.
    assert_eq!(
        prepare_action(&editor_cap(), AiAction::Summarize, input, &router, &tok),
        Err(ActionError::TokenizationUnavailable)
    );
}

#[test]
fn restore_result_detokenizes_only_off_device() {
    let tok = FakeTokenizer { available: true };
    let base = AiActionRequest {
        action: AiAction::Summarize,
        input: SelectionInput::Text("x".to_string()),
        latency: LatencyClass::Interactive,
    };
    let local = RoutedAction {
        request: base.clone(),
        tier: RouteTier::Local,
    };
    let cloud = RoutedAction {
        request: base,
        tier: RouteTier::Cloud,
    };
    // On-device answers were never tokenised → passthrough.
    assert_eq!(restore_result(&local, &tok, "TOK(bob)"), "TOK(bob)");
    // Off-device answers are detokenised on the origin device.
    assert_eq!(restore_result(&cloud, &tok, "TOK(bob)"), "bob");
}

#[test]
fn a_request_is_sealed_before_it_leaves_the_device() {
    let cap = editor_cap();
    let raw = || SelectionInput::Text("bob".to_string());
    let safe = || SelectionInput::Text("T1".to_string());
    let request = || request_action(&cap, AiAction::Act, raw()).unwrap();
    assert_eq!(request().latency, LatencyClass::Batch);
    let local = seal_action(request(), RouteTier::Local, Err(TokenizationUnavailable)).unwrap();
    assert_eq!(local.request.input, raw());
    for tier in [
        RouteTier::PersonalCluster,
        RouteTier::FederatedMesh,
        RouteTier::Cloud,
    ] {
        let sent = seal_action(request(), tier, Ok(safe())).unwrap();
        assert_eq!(sent.request.input, safe());
        assert_eq!(sent.tier, tier);
        assert_eq!(
            seal_action(request(), tier, Err(TokenizationUnavailable)),
            Err(ActionError::TokenizationUnavailable)
        );
    }
    assert_eq!(
        request_action(&cap, AiAction::Act, SelectionInput::Text(String::new())),
        Err(ActionError::Denied(ActionDenied::EmptySelection))
    );
}
