//! The generation of training examples by language model services.
use vstd::prelude::*;

pub mod prompts;
pub mod provider;
pub mod worker;

verus! {

/// Configuration for a single provider.
#[derive(Debug)]
pub struct ProviderConfig {
    pub name: String,
    pub api_key: String,
    pub model: String,
    /// Requests per minute.
    pub rpm_limit: Option<u32>,
    /// Requests per day.
    pub rpd_limit: Option<u32>,
}

#[derive(Debug)]
pub struct SynthesisConfig {
    pub enabled: bool,
    /// Target examples to generate per hour.
    pub target_per_hour: u32,
    /// Whether examples are refined by a second model.
    pub enable_refinement: bool,
    /// Where examples are submitted.
    pub coordinator_url: String,
    pub providers: Vec<ProviderConfig>,
}

/// The target of a configuration that states none.
pub fn default_target_per_hour() -> (n: u32)
    ensures
        n == 50,
{
    50
}

/// The coordinator of a configuration that names none.
pub fn default_coordinator_url() -> (s: String)
    ensures
        s@ == "http://127.0.0.1:17000"@,
{
    "http://127.0.0.1:17000".to_owned()
}

/// A training example that is ready to be submitted.
#[derive(Debug)]
pub struct GeneratedExample {
    pub id: String,
    pub instruction: String,
    pub response: String,
    pub category: String,
    pub provider: String,
    pub model: String,
    /// Whether a second model refined it.
    pub refined: bool,
    /// Whether its code compiled and failed no test.
    pub execution_verified: bool,
}

/// Whether the synthesis engine has anything to do.
pub fn run_synthesis(config: &SynthesisConfig) -> (starts: bool)
    ensures
        starts == (config.providers@.len() > 0),
{
    config.providers.len() > 0
}

} // verus!
