//! How the parts of a training run are set up, from the values of environment variables.

use vstd::prelude::*;
use vstd::string::*;
use crate::nn::train::client::{ends_in_slash, has_final_slash};
use crate::parse::{parse_unsigned, unsigned_value};
use crate::text::same_text;

verus! {

/// What is wrong with the settings.
#[derive(Copy, Clone, Debug, PartialEq, Eq, Structural)]
pub enum SettingsError {
    /// HEX_TRAIN_CONTROLLER_URL is a required env var
    ControllerUrlMissing,
    /// The controller's URL cannot end in '/'
    ControllerUrlSlash,
    /// HEX_TRAIN_MODEL_ID is a required env var
    ModelIdMissing,
    /// HEX_TRAIN_SELF_PLAY_BATCH_EVALS should parse as usize
    BatchEvals,
    /// HEX_TRAIN_SELF_PLAY_CONCURRENCY should parse as usize
    Concurrency,
    /// HEX_TRAIN_SELF_PLAY_ITERS should parse as usize
    Iters,
    /// The concurrency must be greater than the size of a batch
    ConcurrencyTooLow,
    /// HEX_TRAIN_OPTIMIZER_MAX_POSITIONS should parse as usize
    MaxPositions,
    /// HEX_TRAIN_OPTIMIZER_UPLOAD_INTERVAL should parse as u64
    UploadInterval,
    /// HEX_TRAIN_OPTIMIZER_BATCH_SIZE should parse as usize
    BatchSize,
    /// PORT should parse as u16
    Port,
}

/// The text of a variable, if it is set.
pub open spec fn text_of(var: Option<&str>) -> Option<Seq<char>> {
    match var {
        Some(text) => Some(text@),
        None => None,
    }
}

/// The number that a variable stands for: the default where it is not set.
pub open spec fn number_of(var: Option<&str>, default: nat, limit: nat) -> Option<nat> {
    match var {
        Some(text) => unsigned_value(text@, limit),
        None => Some(default),
    }
}

/// The number that a variable stands for.
fn number(var: Option<&str>, default: u64, limit: u64) -> (value: Option<u64>)
    ensures
        value is Some <==> number_of(var, default as nat, limit as nat) is Some,
        value matches Some(n) ==> number_of(var, default as nat, limit as nat) == Some(n as nat),
{
    match var {
        Some(text) => parse_unsigned(text, limit),
        None => Some(default),
    }
}

/// What a component does.
#[derive(Copy, Clone, Debug, PartialEq, Eq, Structural)]
pub enum Role {
    /// Stores and serves model parameters and self play data.
    Controller,
    /// Uses self play data to do gradient descent.
    Optimizer,
    /// Uses model parameters to generate self play data.
    SelfPlay,
}

/// The role with this name.
pub open spec fn role_of(name: Seq<char>) -> Option<Role> {
    if name == "controller"@ {
        Some(Role::Controller)
    } else if name == "optimizer"@ {
        Some(Role::Optimizer)
    } else if name == "selfplay"@ {
        Some(Role::SelfPlay)
    } else {
        None
    }
}

/// The role with this name.
pub fn parse_role(name: &str) -> (role: Option<Role>)
    ensures
        role == role_of(name@),
{
    if same_text(name, "controller") {
        Some(Role::Controller)
    } else if same_text(name, "optimizer") {
        Some(Role::Optimizer)
    } else if same_text(name, "selfplay") {
        Some(Role::SelfPlay)
    } else {
        None
    }
}

/// Where a controller keeps its data, and where it listens.
#[derive(Debug)]
pub struct ControllerSettings {
    pub root: String,
    pub port: u16,
}

impl ControllerSettings {
    /// The settings for the values of `HEX_TRAIN_ROOT` and `PORT`.
    pub fn load(root: Option<&str>, port: Option<&str>) -> (settings: Result<
        ControllerSettings,
        SettingsError,
    >)
        ensures
            settings is Ok <==> number_of(port, 3000, 65535) is Some,
            settings matches Err(e) ==> e == SettingsError::Port,
            settings matches Ok(settings) ==> {
                &&& settings.root@ == match root {
                    Some(root) => root@,
                    None => "data"@,
                }
                &&& number_of(port, 3000, 65535) == Some(settings.port as nat)
            },
    {
        let root = match root {
            Some(root) => root.to_owned(),
            None => "data".to_owned(),
        };
        match number(port, 3000, 65535) {
            Some(port) => Ok(ControllerSettings { root, port: port as u16 }),
            None => Err(SettingsError::Port),
        }
    }
}

/// What is wrong with the variables that every client of a controller needs.
pub open spec fn client_fault(url: Option<&str>, model_id: Option<&str>) -> Option<SettingsError> {
    match url {
        None => Some(SettingsError::ControllerUrlMissing),
        Some(url) => if ends_in_slash(url@) {
            Some(SettingsError::ControllerUrlSlash)
        } else if model_id is None {
            Some(SettingsError::ModelIdMissing)
        } else {
            None
        },
    }
}

/// The address of the controller and the name of the model.
fn client_settings(url: Option<&str>, model_id: Option<&str>) -> (settings: Result<
    (String, String),
    SettingsError,
>)
    ensures
        settings is Ok <==> client_fault(url, model_id) is None,
        settings matches Err(e) ==> client_fault(url, model_id) == Some(e),
        settings matches Ok((u, m)) ==> text_of(url) == Some(u@) && text_of(model_id) == Some(m@),
{
    match url {
        None => Err(SettingsError::ControllerUrlMissing),
        Some(url) => {
            if has_final_slash(url) {
                Err(SettingsError::ControllerUrlSlash)
            } else {
                match model_id {
                    None => Err(SettingsError::ModelIdMissing),
                    Some(model_id) => Ok((url.to_owned(), model_id.to_owned())),
                }
            }
        },
    }
}

/// How self play is set up.
#[derive(Debug)]
pub struct SelfPlaySettings {
    pub controller_url: String,
    pub model_id: String,
    pub batch_evals: usize,
    pub concurrency: usize,
    pub iters: usize,
}

/// What is wrong with the variables of self play.
pub open spec fn self_play_fault(
    url: Option<&str>,
    model_id: Option<&str>,
    batch_evals: Option<&str>,
    concurrency: Option<&str>,
    iters: Option<&str>,
) -> Option<SettingsError> {
    let limit = usize::MAX as nat;
    if client_fault(url, model_id) is Some {
        client_fault(url, model_id)
    } else if number_of(batch_evals, 32, limit) is None {
        Some(SettingsError::BatchEvals)
    } else if number_of(concurrency, 128, limit) is None {
        Some(SettingsError::Concurrency)
    } else if number_of(iters, 800, limit) is None {
        Some(SettingsError::Iters)
    } else if number_of(concurrency, 128, limit)->Some_0 <= number_of(
        batch_evals,
        32,
        limit,
    )->Some_0 {
        Some(SettingsError::ConcurrencyTooLow)
    } else {
        None
    }
}

impl SelfPlaySettings {
    /// The settings for the values of `HEX_TRAIN_CONTROLLER_URL`, `HEX_TRAIN_MODEL_ID`,
    /// `HEX_TRAIN_SELF_PLAY_BATCH_EVALS`, `HEX_TRAIN_SELF_PLAY_CONCURRENCY` and
    /// `HEX_TRAIN_SELF_PLAY_ITERS`. Unless more games are played than make a batch, a batch could
    /// never be filled.
    pub fn load(
        url: Option<&str>,
        model_id: Option<&str>,
        batch_evals: Option<&str>,
        concurrency: Option<&str>,
        iters: Option<&str>,
    ) -> (settings: Result<SelfPlaySettings, SettingsError>)
        ensures
            settings is Ok <==> self_play_fault(
                url,
                model_id,
                batch_evals,
                concurrency,
                iters,
            ) is None,
            settings matches Err(e) ==> self_play_fault(
                url,
                model_id,
                batch_evals,
                concurrency,
                iters,
            ) == Some(e),
            settings matches Ok(s) ==> {
                let limit = usize::MAX as nat;
                &&& text_of(url) == Some(s.controller_url@)
                &&& text_of(model_id) == Some(s.model_id@)
                &&& number_of(batch_evals, 32, limit) == Some(s.batch_evals as nat)
                &&& number_of(concurrency, 128, limit) == Some(s.concurrency as nat)
                &&& number_of(iters, 800, limit) == Some(s.iters as nat)
                &&& s.batch_evals < s.concurrency
            },
    {
        let limit: u64 = usize::MAX as u64;
        let (controller_url, model_id) = match client_settings(url, model_id) {
            Ok(both) => both,
            Err(e) => return Err(e),
        };
        let batch_evals: usize = match number(batch_evals, 32, limit) {
            Some(n) => n as usize,
            None => return Err(SettingsError::BatchEvals),
        };
        let concurrency: usize = match number(concurrency, 128, limit) {
            Some(n) => n as usize,
            None => return Err(SettingsError::Concurrency),
        };
        let iters: usize = match number(iters, 800, limit) {
            Some(n) => n as usize,
            None => return Err(SettingsError::Iters),
        };
        if concurrency <= batch_evals {
            return Err(SettingsError::ConcurrencyTooLow);
        }
        Ok(SelfPlaySettings { controller_url, model_id, batch_evals, concurrency, iters })
    }
}

/// How an optimizer is set up, but for its floating point numbers.
#[derive(Debug)]
pub struct OptimizerSettings {
    pub controller_url: String,
    pub model_id: String,
    pub max_positions: usize,
    pub upload_interval_secs: u64,
    pub batch_size: usize,
}

/// What is wrong with the variables of an optimizer.
pub open spec fn optimizer_fault(
    url: Option<&str>,
    model_id: Option<&str>,
    max_positions: Option<&str>,
    upload_interval: Option<&str>,
    batch_size: Option<&str>,
) -> Option<SettingsError> {
    let limit = usize::MAX as nat;
    if url is None {
        Some(SettingsError::ControllerUrlMissing)
    } else if number_of(max_positions, 500000, limit) is None {
        Some(SettingsError::MaxPositions)
    } else if client_fault(url, model_id) is Some {
        client_fault(url, model_id)
    } else if number_of(upload_interval, 300, u64::MAX as nat) is None {
        Some(SettingsError::UploadInterval)
    } else if number_of(batch_size, 256, limit) is None {
        Some(SettingsError::BatchSize)
    } else {
        None
    }
}

impl OptimizerSettings {
    /// The settings for the values of `HEX_TRAIN_CONTROLLER_URL`, `HEX_TRAIN_MODEL_ID`,
    /// `HEX_TRAIN_OPTIMIZER_MAX_POSITIONS`, `HEX_TRAIN_OPTIMIZER_UPLOAD_INTERVAL` and
    /// `HEX_TRAIN_OPTIMIZER_BATCH_SIZE`.
    pub fn load(
        url: Option<&str>,
        model_id: Option<&str>,
        max_positions: Option<&str>,
        upload_interval: Option<&str>,
        batch_size: Option<&str>,
    ) -> (settings: Result<OptimizerSettings, SettingsError>)
        ensures
            settings is Ok <==> optimizer_fault(
                url,
                model_id,
                max_positions,
                upload_interval,
                batch_size,
            ) is None,
            settings matches Err(e) ==> optimizer_fault(
                url,
                model_id,
                max_positions,
                upload_interval,
                batch_size,
            ) == Some(e),
            settings matches Ok(s) ==> {
                let limit = usize::MAX as nat;
                &&& text_of(url) == Some(s.controller_url@)
                &&& text_of(model_id) == Some(s.model_id@)
                &&& number_of(max_positions, 500000, limit) == Some(s.max_positions as nat)
                &&& number_of(upload_interval, 300, u64::MAX as nat) == Some(
                    s.upload_interval_secs as nat,
                )
                &&& number_of(batch_size, 256, limit) == Some(s.batch_size as nat)
            },
    {
        let limit: u64 = usize::MAX as u64;
        if url.is_none() {
            return Err(SettingsError::ControllerUrlMissing);
        }
        let max_positions: usize = match number(max_positions, 500000, limit) {
            Some(n) => n as usize,
            None => return Err(SettingsError::MaxPositions),
        };
        let (controller_url, model_id) = match client_settings(url, model_id) {
            Ok(both) => both,
            Err(e) => return Err(e),
        };
        let upload_interval_secs: u64 = match number(upload_interval, 300, u64::MAX) {
            Some(n) => n,
            None => return Err(SettingsError::UploadInterval),
        };
        let batch_size: usize = match number(batch_size, 256, limit) {
            Some(n) => n as usize,
            None => return Err(SettingsError::BatchSize),
        };
        Ok(
            OptimizerSettings {
                controller_url,
                model_id,
                max_positions,
                upload_interval_secs,
                batch_size,
            },
        )
    }
}

} // verus!
