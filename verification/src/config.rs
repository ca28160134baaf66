//! Configuration of the pool: the listening server, and for each model
//! the upstream providers that serve it.
use vstd::prelude::*;
use crate::text::{join_str, decimal, push_decimal};

verus! {

/// One upstream provider of a model.
#[derive(Debug)]
pub struct ProviderConfig {
    pub name: String,
    pub api_base: String,
    pub api_key: String,
    pub enabled: bool,
}

impl Clone for ProviderConfig {
    /// A copy with the same name, base URL, key and switch.
    fn clone(&self) -> (r: Self)
        ensures
            r == *self,
    {
        ProviderConfig {
            name: self.name.clone(),
            api_base: self.api_base.clone(),
            api_key: self.api_key.clone(),
            enabled: self.enabled,
        }
    }
}

/// The providers that serve one model.
#[derive(Debug, Clone)]
pub struct ModelConfig {
    pub model_name: String,
    pub providers: Vec<ProviderConfig>,
}

/// Where the server listens.
#[derive(Debug, Clone)]
pub struct ServerConfig {
    pub host: String,
    pub port: u16,
    pub config_file: String,
}

/// The whole configuration: the server, and the models keyed by the name
/// under which clients ask for them.
#[derive(Debug, Clone)]
pub struct Config {
    pub server: ServerConfig,
    pub models: Vec<(String, ModelConfig)>,
}

/// The socket address text `host:port`.
pub open spec fn listen_address_spec(host: Seq<char>, port: nat) -> Seq<char> {
    host + seq![':'] + decimal(port)
}

impl ServerConfig {
    /// The address the server binds, `host:port` with the port in decimal.
    pub fn listen_address(&self) -> (r: String)
        ensures
            r@ == listen_address_spec(self.host@, self.port as nat),
    {
        let mut s = join_str(self.host.as_str(), ":");
        proof {
            reveal_strlit(":");
        }
        push_decimal(&mut s, self.port as u64);
        s
    }
}

/// The variable named by a setting written as `${NAME}`, if it is written so.
pub open spec fn env_reference_spec(value: Seq<char>) -> Option<Seq<char>> {
    if value.len() >= 3 && value[0] == '$' && value[1] == '{' && value[value.len() - 1] == '}' {
        Some(value.subrange(2, value.len() - 1))
    } else {
        None
    }
}

/// The value a setting takes: the environment's value where the setting
/// refers to a variable that is set, the setting as written otherwise.
pub open spec fn resolve_setting_spec(raw: Seq<char>, env_value: Option<Seq<char>>) -> Seq<char> {
    match (env_reference_spec(raw), env_value) {
        (Some(_), Some(v)) => v,
        _ => raw,
    }
}

/// The name of the environment variable a setting such as
/// `api_key: "${OPENROUTER_API_KEY}"` refers to, or `None` for a literal value.
pub fn env_reference(value: &str) -> (r: Option<String>)
    ensures
        r.is_some() == env_reference_spec(value@).is_some(),
        r matches Some(name) ==> env_reference_spec(value@) == Some(name@),
{
    let n = value.unicode_len();
    if n >= 3 && value.get_char(0) == '$' && value.get_char(1) == '{' && value.get_char(n - 1) == '}' {
        let inner = value.substring_char(2, n - 1);
        Some(String::from_str(inner))
    } else {
        None
    }
}

/// The value of a setting once the environment is consulted: `env_value`
/// is what the environment holds for the variable the setting names, if any.
pub fn resolve_setting(raw: &str, env_value: Option<String>) -> (r: String)
    ensures
        r@ == resolve_setting_spec(raw@, match env_value { Some(v) => Some(v@), None => None }),
{
    let reference = env_reference(raw);
    match (reference, env_value) {
        (Some(_), Some(v)) => v,
        _ => String::from_str(raw),
    }
}

} // verus!
