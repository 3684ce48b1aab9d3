//! Settings of the application, as the front end reads and writes them.

use vstd::prelude::*;

verus! {

/// What the application may report.
#[derive(Clone, Debug, PartialEq, Eq)]
pub struct TelemetrySettings {
    /// Whether the anonymous metrics are enabled.
    pub app_metrics_enabled: bool,
    /// Whether anonymous error reporting is enabled.
    pub app_error_reporting_enabled: bool,
    /// Whether non-anonymous metrics are enabled.
    pub app_non_anon_metrics_enabled: bool,
    /// Distinct ID, if reporting is enabled.
    pub app_distinct_id: Option<String>,
}

/// The OAuth application used for GitHub.
#[derive(Clone, Debug, PartialEq, Eq)]
pub struct GitHubOAuthAppSettings {
    /// Client ID of the OAuth application; set to use one of your own.
    pub oauth_client_id: String,
}

/// Features that can be switched on and off.
#[derive(Copy, Clone, Debug, PartialEq, Eq, Structural)]
pub struct FeatureFlags {
    /// Use the third version of the workspace interface.
    pub ws3: bool,
    /// Use the third version of checkout.
    pub cv3: bool,
    /// Use the third version of apply and unapply.
    pub apply3: bool,
    /// Support undo and redo.
    pub undo: bool,
    /// Use actions.
    pub actions: bool,
    /// Use the chat.
    pub butbot: bool,
    /// Process workspace rules.
    pub rules: bool,
    /// Single-branch mode.
    pub single_branch: bool,
}

/// Additions to the content security policy.
#[derive(Clone, Debug, PartialEq, Eq)]
pub struct ExtraCsp {
    /// Additional hosts that the application can connect to.
    pub hosts: Vec<String>,
}

/// Automatic fetching.
#[derive(Copy, Clone, Debug, PartialEq, Eq, Structural)]
pub struct Fetch {
    /// Minutes between two automatic fetches; a negative value switches them off.
    pub auto_fetch_interval_minutes: isize,
}

/// The coding assistant.
#[derive(Clone, Debug, PartialEq, Eq)]
pub struct Claude {
    /// Path of the executable.
    pub executable: String,
    /// Whether to notify when the assistant finishes.
    pub notify_on_completion: bool,
    /// Whether to notify when the assistant needs a permission.
    pub notify_on_permission_request: bool,
    /// Whether to allow everything without asking.
    pub dangerously_allow_all_permissions: bool,
    /// Whether to commit and rename branches after completion.
    pub auto_commit_after_completion: bool,
    /// Whether to use the configured model rather than passing one.
    pub use_configured_model: bool,
}

/// Reviews.
#[derive(Copy, Clone, Debug, PartialEq, Eq, Structural)]
pub struct Reviews {
    /// Whether to fill title and description of a review from the commit
    /// where a branch has one commit only.
    pub auto_fill_pr_description_from_commit: bool,
}

} // verus!
