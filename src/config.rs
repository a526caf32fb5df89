//! Configuration: where the speech model lives, and the mode graph. Several configurations
//! are combined in order, earlier ones taking precedence.

use vstd::prelude::*;

use crate::error::{ConfigError, ConfigErrorSpec};
use crate::modes::{merge, opt_view, validate, ModeGraphSpec, ModeTree};

verus! {

/// The speech model settings as plain values.
pub struct DeepspeechConfigSpec {
    pub library_path: Option<Seq<char>>,
    pub model_path: Option<Seq<char>>,
    pub scorer_path: Option<Seq<char>>,
    pub beam_width: Option<u16>,
}

/// Where to find the speech library and model, and how to tune the decoder. Paths are held
/// as the strings they were written as.
#[derive(Debug, Clone)]
pub struct DeepspeechConfig {
    pub library_path: Option<String>,
    pub model_path: Option<String>,
    pub scorer_path: Option<String>,
    pub beam_width: Option<u16>,
}

impl View for DeepspeechConfig {
    type V = DeepspeechConfigSpec;

    open spec fn view(&self) -> DeepspeechConfigSpec {
        DeepspeechConfigSpec {
            library_path: opt_view(self.library_path),
            model_path: opt_view(self.model_path),
            scorer_path: opt_view(self.scorer_path),
            beam_width: self.beam_width,
        }
    }
}

/// Each setting of `a`, or that of `b` where `a` has none.
pub open spec fn settings_or_else(a: DeepspeechConfigSpec, b: DeepspeechConfigSpec) -> DeepspeechConfigSpec {
    DeepspeechConfigSpec {
        library_path: if a.library_path is Some { a.library_path } else { b.library_path },
        model_path: if a.model_path is Some { a.model_path } else { b.model_path },
        scorer_path: if a.scorer_path is Some { a.scorer_path } else { b.scorer_path },
        beam_width: if a.beam_width is Some { a.beam_width } else { b.beam_width },
    }
}

/// The library file used when none is configured: found by the system's loader.
pub const DEFAULT_LIBRARY: &'static str = "libdeepspeech.so";

impl Default for DeepspeechConfig {
    fn default() -> (r: Self)
        ensures
            r@ == (DeepspeechConfigSpec {
                library_path: None,
                model_path: None,
                scorer_path: None,
                beam_width: None,
            }),
    {
        Self { library_path: None, model_path: None, scorer_path: None, beam_width: None }
    }
}

impl DeepspeechConfig {
    /// Combines `self` with `other`: where a setting is in both, the one in `self` is used.
    pub fn or_else(self, other: DeepspeechConfig) -> (r: Self)
        ensures
            r@ == settings_or_else(self@, other@),
    {
        let mut this = self;
        if this.library_path.is_none() {
            this.library_path = other.library_path;
        }
        if this.model_path.is_none() {
            this.model_path = other.model_path;
        }
        if this.scorer_path.is_none() {
            this.scorer_path = other.scorer_path;
        }
        if this.beam_width.is_none() {
            this.beam_width = other.beam_width;
        }
        this
    }

    /// The speech library to load: the configured one, or `DEFAULT_LIBRARY`.
    pub fn library_path(&self) -> (r: Result<&str, ConfigError>)
        ensures
            r is Ok,
            self@.library_path is Some ==> Some(r->Ok_0@) == self@.library_path,
            self@.library_path is None ==> r->Ok_0@ == DEFAULT_LIBRARY@,
    {
        match &self.library_path {
            Some(pt) => Ok(pt.as_str()),
            None => Ok(DEFAULT_LIBRARY),
        }
    }

    /// The speech model to load; an error where none is configured.
    pub fn model_path(&self) -> (r: Result<&str, ConfigError>)
        ensures
            self@.model_path is Some ==> r is Ok && Some(r->Ok_0@) == self@.model_path,
            self@.model_path is None ==> r is Err && r->Err_0@ == ConfigErrorSpec::NoModel,
    {
        match &self.model_path {
            Some(pt) => Ok(pt.as_str()),
            None => Err(ConfigError::NoModel),
        }
    }

    /// The external scorer to enable, if one is configured.
    pub fn scorer_path(&self) -> (r: Result<Option<&str>, ConfigError>)
        ensures
            r is Ok,
            r->Ok_0 is Some == self@.scorer_path is Some,
            r->Ok_0 is Some ==> Some(r->Ok_0->0@) == self@.scorer_path,
    {
        match &self.scorer_path {
            Some(pt) => Ok(Some(pt.as_str())),
            None => Ok(None),
        }
    }

    /// The decoder's beam width, if one is configured.
    pub fn beam_width(&self) -> (r: Result<Option<u16>, ConfigError>)
        ensures
            r is Ok,
            r->Ok_0 == self@.beam_width,
    {
        match self.beam_width {
            Some(bw) => Ok(Some(bw)),
            None => Ok(None),
        }
    }

    /// Checks that the settings are complete: a model must be configured.
    pub fn verify(&self) -> (r: Result<(), ConfigError>)
        ensures
            self@.model_path is Some ==> r is Ok,
            self@.model_path is None ==> r is Err && r->Err_0@ == ConfigErrorSpec::NoModel,
    {
        if self.model_path.is_none() {
            return Err(ConfigError::NoModel);
        }
        Ok(())
    }
}

/// A whole configuration as plain values.
pub struct ConfigSpec {
    pub deepspeech_config: DeepspeechConfigSpec,
    pub modes: ModeGraphSpec,
}

/// The speech model settings and the mode graph.
#[derive(Debug)]
pub struct Config {
    pub deepspeech_config: DeepspeechConfig,
    pub modes: ModeTree,
}

impl View for Config {
    type V = ConfigSpec;

    open spec fn view(&self) -> ConfigSpec {
        ConfigSpec { deepspeech_config: self.deepspeech_config@, modes: self.modes@ }
    }
}

/// The configuration with no settings and an empty mode graph.
pub open spec fn empty_config() -> ConfigSpec {
    ConfigSpec {
        deepspeech_config: DeepspeechConfigSpec {
            library_path: None,
            model_path: None,
            scorer_path: None,
            beam_width: None,
        },
        modes: ModeGraphSpec { default: Seq::empty(), modes: Seq::empty() },
    }
}

/// `a` combined with `b`: settings of `a` first, and the mode graphs merged.
pub open spec fn config_or_else(a: ConfigSpec, b: ConfigSpec) -> Result<ConfigSpec, ConfigErrorSpec> {
    match merge(a.modes, b.modes) {
        Err(e) => Err(e),
        Ok(m) => Ok(
            ConfigSpec {
                deepspeech_config: settings_or_else(a.deepspeech_config, b.deepspeech_config),
                modes: m,
            },
        ),
    }
}

/// The first `n` of `cs` combined in order, starting from the empty configuration.
pub open spec fn cascade_spec(cs: Seq<ConfigSpec>, n: nat) -> Result<ConfigSpec, ConfigErrorSpec>
    decreases n,
{
    if n == 0 {
        Ok(empty_config())
    } else {
        match cascade_spec(cs, (n - 1) as nat) {
            Err(e) => Err(e),
            Ok(acc) => config_or_else(acc, cs[n - 1]),
        }
    }
}

proof fn lemma_cascade_err_stays(cs: Seq<ConfigSpec>, k: nat, n: nat)
    requires
        k <= n,
        cascade_spec(cs, k) is Err,
    ensures
        cascade_spec(cs, n) == cascade_spec(cs, k),
    decreases n - k,
{
    if k < n {
        lemma_cascade_err_stays(cs, k, (n - 1) as nat);
    }
}

/// The plain values of a list of configurations.
pub open spec fn configs_view(v: Seq<Config>) -> Seq<ConfigSpec> {
    v.map_values(|c: Config| c@)
}

impl Default for Config {
    fn default() -> (r: Self)
        ensures
            r@ == empty_config(),
    {
        Config { deepspeech_config: DeepspeechConfig::default(), modes: ModeTree::empty() }
    }
}

impl Config {
    /// Checks that the configuration is complete and its mode graph valid.
    pub fn verify(&self) -> (r: Result<(), ConfigError>)
        ensures
            self@.deepspeech_config.model_path is None ==> r is Err && r->Err_0@
                == ConfigErrorSpec::NoModel,
            self@.deepspeech_config.model_path is Some ==> match r {
                Ok(()) => validate(self@.modes) == Ok::<(), ConfigErrorSpec>(()),
                Err(e) => validate(self@.modes) == Err::<(), ConfigErrorSpec>(e@),
            },
    {
        match self.deepspeech_config.verify() {
            Err(e) => Err(e),
            Ok(()) => self.modes.verify(),
        }
    }

    /// Combines `self` with `other`: settings in `self` take precedence, and the mode graphs
    /// are merged as `ModeTree::or_else` does.
    pub fn or_else(self, other: Config) -> (r: Result<Self, ConfigError>)
        ensures
            match r {
                Ok(c) => config_or_else(self@, other@) == Ok::<ConfigSpec, ConfigErrorSpec>(c@),
                Err(e) => config_or_else(self@, other@) == Err::<ConfigSpec, ConfigErrorSpec>(e@),
            },
    {
        let Config { deepspeech_config, modes } = self;
        let Config { deepspeech_config: other_settings, modes: other_modes } = other;
        match modes.or_else(other_modes) {
            Err(e) => Err(e),
            Ok(m) => Ok(
                Config { deepspeech_config: deepspeech_config.or_else(other_settings), modes: m },
            ),
        }
    }
}

/// Combines configurations in order, starting from the empty one: where two give the same
/// setting, the earlier one wins; mode graphs are merged in order.
pub fn cascade(configs: Vec<Config>) -> (r: Result<Config, ConfigError>)
    ensures
        match r {
            Ok(c) => cascade_spec(configs_view(configs@), configs@.len()) == Ok::<
                ConfigSpec,
                ConfigErrorSpec,
            >(c@),
            Err(e) => cascade_spec(configs_view(configs@), configs@.len()) == Err::<
                ConfigSpec,
                ConfigErrorSpec,
            >(e@),
        },
{
    let ghost all = configs_view(configs@);
    let ghost total = configs@.len();
    let count = configs.len();
    let mut rest = configs;
    let mut config = Config::default();
    let mut i: usize = 0;
    while rest.len() > 0
        invariant
            i + rest@.len() == total,
            total == configs@.len(),
            total == count,
            all == configs_view(configs@),
            configs_view(rest@) == all.skip(i as int),
            all.len() == total,
            cascade_spec(all, i as nat) == Ok::<ConfigSpec, ConfigErrorSpec>(config@),
        decreases rest@.len(),
    {
        let ghost before = rest@;
        let next = rest.remove(0);
        proof {
            assert(next == before[0]);
            assert(configs_view(before)[0] == before[0]@);
            assert(all.skip(i as int)[0] == all[i as int]);
            assert(rest@ =~= before.subrange(1, before.len() as int));
            assert forall|j: int| 0 <= j < rest@.len() implies configs_view(rest@)[j] == all.skip(
                i + 1,
            )[j] by {
                assert(configs_view(rest@)[j] == rest@[j]@);
                assert(rest@[j] == before[j + 1]);
                assert(configs_view(before)[j + 1] == before[j + 1]@);
                assert(all.skip(i as int)[j + 1] == all[i + 1 + j]);
            }
            assert(configs_view(rest@) =~= all.skip(i + 1));
        }
        match config.or_else(next) {
            Err(e) => {
                proof {
                    lemma_cascade_err_stays(all, (i + 1) as nat, total as nat);
                }
                return Err(e);
            },
            Ok(c) => {
                config = c;
            },
        }
        i = i + 1;
    }
    Ok(config)
}

} // verus!
