//! Contextual AI actions: selection → AI.
//!
//! - [`SelectionInput`] — what the user selected (text / file / image).
//! - [`AiAction`] + [`applicable_actions`] — the contextual action set offered for a given input.
//! - [`ActionCapability`] + [`authorize`] — every action is bound to the calling app's capability
//!   grant.
//! - [`TierRouter`] + [`ActionTokenizer`] + [`prepare_action`] — routing under the tier policy, and
//!   tokenisation of personal data on egress and detokenisation on ingress. Both effects sit behind
//!   traits; the policy — never let a selection leave the origin device untokenised — is here.

use vstd::prelude::*;

use crate::clipboard::copy_bytes;
use crate::edit::TextBuffer;
use crate::strings::is_empty;

verus! {

/// What the user selected, as input to an AI action.
#[derive(Debug, Clone, PartialEq, Eq)]
pub enum SelectionInput {
    /// A run of selected text.
    Text(String),
    /// A selected file, by path + MIME type (contents fetched on demand).
    File {
        /// Absolute path of the selected file.
        path: String,
        /// MIME type of the file.
        mime: String,
    },
    /// A selected image, by MIME type + bytes.
    Image {
        /// MIME type of the image (e.g. `image/png`).
        mime: String,
        /// Raw image bytes.
        bytes: Vec<u8>,
    },
}

/// What a selection holds.
pub enum Picked {
    /// A text.
    Text(Seq<char>),
    /// A file: path and MIME type.
    File(Seq<char>, Seq<char>),
    /// An image: MIME type and bytes.
    Image(Seq<char>, Seq<u8>),
}

impl View for SelectionInput {
    type V = Picked;

    open spec fn view(&self) -> Picked {
        match self {
            SelectionInput::Text(t) => Picked::Text(t@),
            SelectionInput::File { path, mime } => Picked::File(path@, mime@),
            SelectionInput::Image { mime, bytes } => Picked::Image(mime@, bytes@),
        }
    }
}

impl Picked {
    /// The kind of the selection.
    pub open spec fn kind(self) -> InputKind {
        match self {
            Picked::Text(_) => InputKind::Text,
            Picked::File(_, _) => InputKind::File,
            Picked::Image(_, _) => InputKind::Image,
        }
    }

    /// Whether there is nothing to act on: an empty text, or an image without bytes.
    pub open spec fn blank(self) -> bool {
        match self {
            Picked::Text(t) => t.len() == 0,
            Picked::Image(_, b) => b.len() == 0,
            Picked::File(_, _) => false,
        }
    }
}

impl SelectionInput {
    /// Capture the current selection of a [`TextBuffer`] as a text input, or `None` when nothing is
    /// selected.
    pub fn from_text_selection(buffer: &TextBuffer) -> (r: Option<Self>)
        requires
            buffer@.valid(),
        ensures
            match r {
                Some(s) => buffer@.selected() is Some && s@ == Picked::Text(buffer@.excerpt()),
                None => buffer@.selected() is None,
            },
    {
        match buffer.selected_text() {
            Some(t) => Some(SelectionInput::Text(t)),
            None => None,
        }
    }

    /// Build a file input.
    pub fn file(path: &str, mime: &str) -> (r: Self)
        ensures
            r@ == Picked::File(path@, mime@),
    {
        SelectionInput::File { path: path.to_owned(), mime: mime.to_owned() }
    }

    /// Build an image input.
    pub fn image(mime: &str, bytes: &[u8]) -> (r: Self)
        ensures
            r@ == Picked::Image(mime@, bytes@),
    {
        SelectionInput::Image { mime: mime.to_owned(), bytes: copy_bytes(bytes) }
    }

    /// A stable kind tag, useful for routing and capability checks.
    pub fn kind(&self) -> (r: InputKind)
        ensures
            r == self@.kind(),
    {
        match self {
            SelectionInput::Text(_) => InputKind::Text,
            SelectionInput::File { .. } => InputKind::File,
            SelectionInput::Image { .. } => InputKind::Image,
        }
    }

    /// `true` when the selection carries no usable payload (empty text / empty image bytes). A file
    /// reference is never considered empty here.
    pub fn is_empty(&self) -> (r: bool)
        ensures
            r == self@.blank(),
    {
        match self {
            SelectionInput::Text(t) => is_empty(t.as_str()),
            SelectionInput::Image { bytes, .. } => bytes.len() == 0,
            SelectionInput::File { .. } => false,
        }
    }
}

/// The kind of a [`SelectionInput`], independent of its payload.
#[derive(Debug, Clone, Copy, PartialEq, Eq, PartialOrd, Ord, Structural)]
pub enum InputKind {
    /// A text selection.
    Text,
    /// A file reference.
    File,
    /// An image payload.
    Image,
}

/// A contextual AI action offered on a selection.
#[derive(Debug, Clone, PartialEq, Eq, PartialOrd, Ord)]
pub enum AiAction {
    /// Condense the selection.
    Summarize,
    /// Translate the selection (into the given BCP-47 language tag).
    Translate(String),
    /// Explain the selection in plain language.
    Explain,
    /// Rewrite / rephrase the selection.
    Rewrite,
    /// Pull structured data out of the selection.
    Extract,
    /// Hand the selection to an agent to act on (agentic).
    Act,
    /// A first- or third-party custom action, by id.
    Custom(String),
}

/// What an action does.
pub enum Action {
    /// Condense.
    Summarize,
    /// Translate into a language.
    Translate(Seq<char>),
    /// Explain.
    Explain,
    /// Rephrase.
    Rewrite,
    /// Pull out structured data.
    Extract,
    /// Hand over to an agent.
    Act,
    /// A custom action.
    Custom(Seq<char>),
}

impl View for AiAction {
    type V = Action;

    open spec fn view(&self) -> Action {
        match self {
            AiAction::Summarize => Action::Summarize,
            AiAction::Translate(l) => Action::Translate(l@),
            AiAction::Explain => Action::Explain,
            AiAction::Rewrite => Action::Rewrite,
            AiAction::Extract => Action::Extract,
            AiAction::Act => Action::Act,
            AiAction::Custom(id) => Action::Custom(id@),
        }
    }
}

impl Action {
    /// The kind of the action.
    pub open spec fn kind(self) -> ActionKind {
        match self {
            Action::Summarize => ActionKind::Summarize,
            Action::Translate(_) => ActionKind::Translate,
            Action::Explain => ActionKind::Explain,
            Action::Rewrite => ActionKind::Rewrite,
            Action::Extract => ActionKind::Extract,
            Action::Act => ActionKind::Act,
            Action::Custom(_) => ActionKind::Custom,
        }
    }

    /// How urgently the user waits for it: only an agentic task may run long.
    pub open spec fn latency(self) -> LatencyClass {
        if self.kind() == ActionKind::Act {
            LatencyClass::Batch
        } else {
            LatencyClass::Interactive
        }
    }
}

/// What the actions of a list do.
pub open spec fn actions_of(s: Seq<AiAction>) -> Seq<Action> {
    s.map_values(|a: AiAction| a@)
}

impl AiAction {
    /// A stable, capability-checkable kind for this action (dropping any parameters like the
    /// translation target language).
    pub fn kind(&self) -> (r: ActionKind)
        ensures
            r == self@.kind(),
    {
        match self {
            AiAction::Summarize => ActionKind::Summarize,
            AiAction::Translate(_) => ActionKind::Translate,
            AiAction::Explain => ActionKind::Explain,
            AiAction::Rewrite => ActionKind::Rewrite,
            AiAction::Extract => ActionKind::Extract,
            AiAction::Act => ActionKind::Act,
            AiAction::Custom(_) => ActionKind::Custom,
        }
    }

    /// A short human-facing label for the action menu.
    pub fn label(&self) -> (r: &str)
        ensures
            r@ == (match self@ {
                Action::Summarize => "Riassumi"@,
                Action::Translate(_) => "Traduci"@,
                Action::Explain => "Spiega"@,
                Action::Rewrite => "Riscrivi"@,
                Action::Extract => "Estrai"@,
                Action::Act => "Agisci"@,
                Action::Custom(id) => id,
            }),
    {
        match self {
            AiAction::Summarize => "Riassumi",
            AiAction::Translate(_) => "Traduci",
            AiAction::Explain => "Spiega",
            AiAction::Rewrite => "Riscrivi",
            AiAction::Extract => "Estrai",
            AiAction::Act => "Agisci",
            AiAction::Custom(id) => id.as_str(),
        }
    }

    /// The latency class this action should be routed with.
    ///
    /// Selection-driven actions block the user and are interactive; handing the selection to an
    /// agent is a potentially long-running batch task.
    pub fn latency_class(&self) -> (r: LatencyClass)
        ensures
            r == self@.latency(),
    {
        match self {
            AiAction::Act => LatencyClass::Batch,
            _ => LatencyClass::Interactive,
        }
    }
}

/// Capability-checkable kind of an [`AiAction`].
#[derive(Debug, Clone, Copy, PartialEq, Eq, PartialOrd, Ord, Structural)]
pub enum ActionKind {
    /// Condense the selection.
    Summarize,
    /// Translate the selection.
    Translate,
    /// Explain the selection in plain language.
    Explain,
    /// Rewrite / rephrase the selection.
    Rewrite,
    /// Pull structured data out of the selection.
    Extract,
    /// Hand the selection to an agent.
    Act,
    /// A custom action.
    Custom,
}

/// The actions that are offered for a kind of selection.
pub open spec fn menu(kind: InputKind) -> Seq<Action> {
    match kind {
        InputKind::Text => seq![
            Action::Summarize,
            Action::Translate(Seq::empty()),
            Action::Explain,
            Action::Rewrite,
            Action::Extract,
            Action::Act,
        ],
        InputKind::Image | InputKind::File => seq![
            Action::Summarize,
            Action::Explain,
            Action::Extract,
            Action::Act,
        ],
    }
}

/// Translation is offered for text alone, and nothing is offered twice.
pub proof fn law_translation_is_for_text(kind: InputKind)
    ensures
        (exists|i: int|
            0 <= i < menu(kind).len() && (#[trigger] menu(kind)[i]).kind()
                == ActionKind::Translate) <==> kind == InputKind::Text,
        forall|i: int, j: int|
            0 <= i < j < menu(kind).len() ==> (#[trigger] menu(kind)[i]).kind() != (
            #[trigger] menu(kind)[j]).kind(),
{
    if kind == InputKind::Text {
        assert(menu(kind)[1].kind() == ActionKind::Translate);
    }
}

/// The contextual action menu for a selection: the ordered set of actions applicable to `input`.
///
/// Text can be summarised, translated, explained, rewritten, extracted from, or acted on. An image
/// supports the vision-capable subset (summarise/describe, explain, extract=OCR, act). A file
/// supports summarise/explain/extract/act. `Translate` is offered only for text.
pub fn applicable_actions(input: &SelectionInput) -> (r: Vec<AiAction>)
    ensures
        actions_of(r@) == menu(input@.kind()),
{
    let kind = input.kind();
    let mut out: Vec<AiAction> = Vec::new();
    match kind {
        InputKind::Text => {
            let tag = String::new();
            assert(tag@ =~= Seq::<char>::empty());
            out.push(AiAction::Summarize);
            out.push(AiAction::Translate(tag));
            out.push(AiAction::Explain);
            out.push(AiAction::Rewrite);
            out.push(AiAction::Extract);
            out.push(AiAction::Act);
        },
        InputKind::Image | InputKind::File => {
            out.push(AiAction::Summarize);
            out.push(AiAction::Explain);
            out.push(AiAction::Extract);
            out.push(AiAction::Act);
        },
    }
    assert(actions_of(out@) =~= menu(kind));
    out
}

/// A set of action kinds.
#[derive(Debug, Clone, Copy, PartialEq, Eq, Structural)]
struct Grants {
    summarize: bool,
    translate: bool,
    explain: bool,
    rewrite: bool,
    extract: bool,
    act: bool,
    custom: bool,
}

/// An app's grant of which AI actions it may invoke.
///
/// Every contextual action is bound to the calling app's capability: the action fires only if the
/// app was granted that [`ActionKind`].
#[derive(Debug, Clone, PartialEq, Eq)]
pub struct ActionCapability {
    app_id: String,
    allowed: Grants,
}

impl Default for ActionCapability {
    fn default() -> (r: Self)
        ensures
            r.owner() == Seq::<char>::empty(),
            forall|k: ActionKind| !r.grants(k),
    {
        let r = ActionCapability::new("");
        proof {
            reveal_strlit("");
            assert(r.owner() =~= Seq::<char>::empty());
        }
        r
    }
}

impl ActionCapability {
    /// The app that holds the capability.
    pub closed spec fn owner(&self) -> Seq<char> {
        self.app_id@
    }

    /// Whether a kind is granted.
    pub closed spec fn grants(&self, kind: ActionKind) -> bool {
        match kind {
            ActionKind::Summarize => self.allowed.summarize,
            ActionKind::Translate => self.allowed.translate,
            ActionKind::Explain => self.allowed.explain,
            ActionKind::Rewrite => self.allowed.rewrite,
            ActionKind::Extract => self.allowed.extract,
            ActionKind::Act => self.allowed.act,
            ActionKind::Custom => self.allowed.custom,
        }
    }

    /// A capability for `app_id` granting no actions.
    pub fn new(app_id: &str) -> (r: Self)
        ensures
            r.owner() == app_id@,
            forall|k: ActionKind| !r.grants(k),
    {
        ActionCapability {
            app_id: app_id.to_owned(),
            allowed: Grants {
                summarize: false,
                translate: false,
                explain: false,
                rewrite: false,
                extract: false,
                act: false,
                custom: false,
            },
        }
    }

    /// Grant `kind` (builder-style).
    pub fn grant(self, kind: ActionKind) -> (r: Self)
        ensures
            r.owner() == self.owner(),
            forall|k: ActionKind| r.grants(k) == (k == kind || self.grants(k)),
    {
        let mut out = self;
        match kind {
            ActionKind::Summarize => {
                out.allowed.summarize = true;
            },
            ActionKind::Translate => {
                out.allowed.translate = true;
            },
            ActionKind::Explain => {
                out.allowed.explain = true;
            },
            ActionKind::Rewrite => {
                out.allowed.rewrite = true;
            },
            ActionKind::Extract => {
                out.allowed.extract = true;
            },
            ActionKind::Act => {
                out.allowed.act = true;
            },
            ActionKind::Custom => {
                out.allowed.custom = true;
            },
        }
        out
    }

    /// Grant every action kind (builder-style) — a fully-trusted first-party app.
    pub fn grant_all(self) -> (r: Self)
        ensures
            r.owner() == self.owner(),
            forall|k: ActionKind| r.grants(k),
    {
        let mut out = self;
        out.allowed =
        Grants {
            summarize: true,
            translate: true,
            explain: true,
            rewrite: true,
            extract: true,
            act: true,
            custom: true,
        };
        out
    }

    /// The app this capability belongs to.
    pub fn app_id(&self) -> (r: &str)
        ensures
            r@ == self.owner(),
    {
        self.app_id.as_str()
    }

    /// Whether `kind` is granted.
    pub fn allows(&self, kind: ActionKind) -> (r: bool)
        ensures
            r == self.grants(kind),
    {
        match kind {
            ActionKind::Summarize => self.allowed.summarize,
            ActionKind::Translate => self.allowed.translate,
            ActionKind::Explain => self.allowed.explain,
            ActionKind::Rewrite => self.allowed.rewrite,
            ActionKind::Extract => self.allowed.extract,
            ActionKind::Act => self.allowed.act,
            ActionKind::Custom => self.allowed.custom,
        }
    }
}

/// Why an [`authorize`] check rejected an action.
#[derive(Debug, Clone, Copy, PartialEq, Eq, Structural)]
pub enum ActionDenied {
    /// The calling app was not granted this action kind.
    NotPermitted,
    /// The selection carried no usable payload.
    EmptySelection,
}

/// Whether an action on a selection is allowed, or why not.
pub open spec fn permission(cap: ActionCapability, action: Action, input: Picked) -> Result<
    (),
    ActionDenied,
> {
    if input.blank() {
        Err(ActionDenied::EmptySelection)
    } else if !cap.grants(action.kind()) {
        Err(ActionDenied::NotPermitted)
    } else {
        Ok(())
    }
}

/// Authorize `action` on `input` for the app holding `cap`.
///
/// Fails closed: an empty selection or a missing capability grant is rejected before the action is
/// ever routed to the runtime.
///
/// # Errors
///
/// - [`ActionDenied::EmptySelection`] when `input` has no payload.
/// - [`ActionDenied::NotPermitted`] when `cap` does not grant `action.kind()`.
pub fn authorize(cap: &ActionCapability, action: &AiAction, input: &SelectionInput) -> (r: Result<
    (),
    ActionDenied,
>)
    ensures
        r == permission(*cap, action@, input@),
{
    if input.is_empty() {
        return Err(ActionDenied::EmptySelection);
    }
    if !cap.allows(action.kind()) {
        return Err(ActionDenied::NotPermitted);
    }
    Ok(())
}

/// How urgently the user is waiting on an action's result — an input to the tier-routing policy.
#[derive(Debug, Clone, Copy, PartialEq, Eq, PartialOrd, Ord, Structural)]
pub enum LatencyClass {
    /// The user is blocked on the selection — route for responsiveness.
    Interactive,
    /// An agentic task ([`AiAction::Act`]) that may run long — route as batch.
    Batch,
}

/// The execution tier an action was routed to.
///
/// [`RouteTier::badge`] returns the stable backend badges, so the UI can show the user which tier
/// answered (a privacy-transparency cue: `local` vs `cloud`).
#[derive(Debug, Clone, Copy, PartialEq, Eq, PartialOrd, Ord, Structural)]
pub enum RouteTier {
    /// Tier 0 — on the origin device.
    Local,
    /// Tier 1 — the user's personal cluster.
    PersonalCluster,
    /// Tier 2 — the federated mesh.
    FederatedMesh,
    /// Tier 3 — the cloud.
    Cloud,
}

impl RouteTier {
    /// The stable backend badge for this tier (`local` / `personal-cluster` / `mesh` / `cloud`).
    pub fn badge(self) -> (r: &'static str)
        ensures
            r@ == (match self {
                RouteTier::Local => "local"@,
                RouteTier::PersonalCluster => "personal-cluster"@,
                RouteTier::FederatedMesh => "mesh"@,
                RouteTier::Cloud => "cloud"@,
            }),
    {
        match self {
            RouteTier::Local => "local",
            RouteTier::PersonalCluster => "personal-cluster",
            RouteTier::FederatedMesh => "mesh",
            RouteTier::Cloud => "cloud",
        }
    }

    /// `true` only for [`RouteTier::Local`]: the workload runs on the origin device and never
    /// crosses a process/device boundary. Drives the egress tokenisation gate in
    /// [`prepare_action`].
    pub fn is_on_device(self) -> (r: bool)
        ensures
            r == (self == RouteTier::Local),
    {
        match self {
            RouteTier::Local => true,
            _ => false,
        }
    }
}

/// A provider-agnostic AI request the runtime dispatches.
///
/// After [`prepare_action`] its `input` is the egress-safe selection: on-device when routed
/// [`RouteTier::Local`], tokenised otherwise.
#[derive(Debug, Clone, PartialEq, Eq)]
pub struct AiActionRequest {
    /// The action to run.
    pub action: AiAction,
    /// The (possibly tokenised) selection to run it on.
    pub input: SelectionInput,
    /// The latency class to route with.
    pub latency: LatencyClass,
}

/// Seam to the tier-policy router.
pub trait TierRouter {
    /// Decide the execution tier for `request`.
    fn route(&self, request: &AiActionRequest) -> RouteTier;
}

/// The on-device tokenisation pipeline was unavailable.
#[derive(Debug, Clone, Copy, PartialEq, Eq, Structural)]
pub struct TokenizationUnavailable;

/// Seam to the on-device tokenisation service.
pub trait ActionTokenizer {
    /// Tokenise any personal data in an outbound selection before it leaves the device.
    ///
    /// # Errors
    ///
    /// Returns [`TokenizationUnavailable`] when the pipeline is down; the action is then refused
    /// rather than sent out untokenised (fail-closed).
    fn tokenize_egress(&self, input: &SelectionInput) -> Result<
        SelectionInput,
        TokenizationUnavailable,
    >;

    /// Detokenise the model's response on ingress (origin device only).
    fn detokenize_ingress(&self, output: &str) -> String;
}

/// Why [`prepare_action`] refused to route an action.
#[derive(Debug, Clone, Copy, PartialEq, Eq, Structural)]
pub enum ActionError {
    /// The action failed the capability / empty-selection check.
    Denied(ActionDenied),
    /// The action was routed off-device but the on-device tokenisation pipeline was unavailable, so
    /// it was refused rather than sent out untokenised (fail-closed).
    TokenizationUnavailable,
}

impl From<ActionDenied> for ActionError {
    fn from(d: ActionDenied) -> (r: Self) {
        ActionError::Denied(d)
    }
}

impl vstd::std_specs::convert::FromSpecImpl<ActionDenied> for ActionError {
    open spec fn obeys_from_spec() -> bool {
        true
    }

    open spec fn from_spec(d: ActionDenied) -> ActionError {
        ActionError::Denied(d)
    }
}

/// An authorised, routed, egress-safe action ready to dispatch.
#[derive(Debug, Clone, PartialEq, Eq)]
pub struct RoutedAction {
    /// The request to dispatch; its `input` is already egress-safe.
    pub request: AiActionRequest,
    /// The tier it was routed to.
    pub tier: RouteTier,
}

/// The request for an action, if it is allowed.
///
/// # Errors
///
/// [`ActionError::Denied`] when [`authorize`] rejects the action.
pub fn request_action(cap: &ActionCapability, action: AiAction, input: SelectionInput) -> (r:
    Result<AiActionRequest, ActionError>)
    ensures
        match permission(*cap, action@, input@) {
            Ok(_) => r == Ok::<AiActionRequest, ActionError>(
                AiActionRequest { action, input, latency: action@.latency() },
            ),
            Err(d) => r == Err::<AiActionRequest, ActionError>(ActionError::Denied(d)),
        },
{
    match authorize(cap, &action, &input) {
        Ok(_) => {},
        Err(d) => {
            return Err(ActionError::from(d));
        },
    }
    let latency = action.latency_class();
    Ok(AiActionRequest { action, input, latency })
}

/// The routed action for a request, given the tier it was routed to and what the tokeniser made of
/// its selection: the selection stays as it is on the origin device, and leaves it tokenised or not
/// at all.
///
/// # Errors
///
/// [`ActionError::TokenizationUnavailable`] when the action routes off-device but the tokeniser
/// could not sanitise the selection.
pub fn seal_action(
    request: AiActionRequest,
    tier: RouteTier,
    sanitized: Result<SelectionInput, TokenizationUnavailable>,
) -> (r: Result<RoutedAction, ActionError>)
    ensures
        r == (if tier == RouteTier::Local {
            Ok::<RoutedAction, ActionError>(RoutedAction { request, tier })
        } else {
            match sanitized {
                Ok(input) => Ok(
                    RoutedAction { request: AiActionRequest { input, ..request }, tier },
                ),
                Err(_) => Err(ActionError::TokenizationUnavailable),
            }
        }),
{
    if tier.is_on_device() {
        return Ok(RoutedAction { request, tier });
    }
    match sanitized {
        Ok(input) => Ok(
            RoutedAction {
                request: AiActionRequest {
                    action: request.action,
                    input,
                    latency: request.latency,
                },
                tier,
            },
        ),
        Err(_) => Err(ActionError::TokenizationUnavailable),
    }
}

/// Authorise → route per the tier policy → tokenise the selection on egress for any off-device
/// tier. Fail-closed.
///
/// This is the single entry point an app uses to turn a picked menu action into a dispatchable
/// request. Authorisation and the empty-selection check run before anything is routed; the egress
/// tokenisation gate runs before the request is handed back, so a [`RoutedAction`] can never carry a
/// selection bound for an off-device tier that was not tokenised.
///
/// # Errors
///
/// - [`ActionError::Denied`] when [`authorize`] rejects the action.
/// - [`ActionError::TokenizationUnavailable`] when the action routes off-device but the tokeniser
///   cannot sanitise the selection.
pub fn prepare_action<R: TierRouter, T: ActionTokenizer>(
    cap: &ActionCapability,
    action: AiAction,
    input: SelectionInput,
    router: &R,
    tokenizer: &T,
) -> (r: Result<RoutedAction, ActionError>)
    ensures
        match permission(*cap, action@, input@) {
            Err(d) => r == Err::<RoutedAction, ActionError>(ActionError::Denied(d)),
            Ok(_) => {
                let request = AiActionRequest { action, input, latency: action@.latency() };
                match r {
                    Ok(routed) => {
                        &&& call_ensures(R::route, (router, &request), routed.tier)
                        &&& routed.request.action == action
                        &&& routed.request.latency == action@.latency()
                        &&& routed.tier == RouteTier::Local ==> routed.request.input == input
                        &&& routed.tier != RouteTier::Local ==> call_ensures(
                            T::tokenize_egress,
                            (tokenizer, &input),
                            Ok(routed.request.input),
                        )
                    },
                    Err(e) => {
                        &&& e == ActionError::TokenizationUnavailable
                        &&& call_ensures(
                            T::tokenize_egress,
                            (tokenizer, &input),
                            Err(TokenizationUnavailable),
                        )
                        &&& exists|tier: RouteTier| #[trigger]
                            call_ensures(R::route, (router, &request), tier) && tier
                                != RouteTier::Local
                    },
                }
            },
        },
{
    let request = match request_action(cap, action, input) {
        Ok(request) => request,
        Err(e) => {
            return Err(e);
        },
    };
    let tier = router.route(&request);
    if tier.is_on_device() {
        return Ok(RoutedAction { request, tier });
    }
    let sanitized = tokenizer.tokenize_egress(&request.input);
    assert(sanitized is Err ==> sanitized->Err_0 == TokenizationUnavailable);
    seal_action(request, tier, sanitized)
}

/// Restore an AI result on ingress.
///
/// On-device results were never tokenised, so they pass through untouched; an off-device result is
/// detokenised by the origin device's vault.
pub fn restore_result<T: ActionTokenizer>(routed: &RoutedAction, tokenizer: &T, output: &str) -> (r:
    String)
    ensures
        routed.tier == RouteTier::Local ==> r@ == output@,
        routed.tier != RouteTier::Local ==> call_ensures(
            T::detokenize_ingress,
            (tokenizer, output),
            r,
        ),
{
    if routed.tier.is_on_device() {
        output.to_owned()
    } else {
        tokenizer.detokenize_ingress(output)
    }
}

/// An action is permitted exactly where there is something to act on and the capability grants its
/// kind; without a selection that is what it is refused for.
pub proof fn law_permission_needs_a_selection_and_a_grant(
    cap: ActionCapability,
    action: Action,
    input: Picked,
)
    ensures
        permission(cap, action, input) is Ok <==> !input.blank() && cap.grants(action.kind()),
        permission(cap, action, input) == Err::<(), ActionDenied>(ActionDenied::EmptySelection)
            <==> input.blank(),
        input.blank() <==> (input matches Picked::Text(t) && t == Seq::<char>::empty()) || (
        input matches Picked::Image(_, b) && b == Seq::<u8>::empty()),
{
    match input {
        Picked::Text(t) => {
            if t.len() == 0 {
                assert(t =~= Seq::empty());
            }
        },
        Picked::Image(_, b) => {
            if b.len() == 0 {
                assert(b =~= Seq::empty());
            }
        },
        Picked::File(_, _) => {},
    }
}

} // verus!
