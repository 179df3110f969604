//! Settings of a partition node.
pub use crate::environment::ConfigError;
use crate::environment;
use crate::environment::{checked_address, parse_env, setting_or, ConfigErrorView};
use crate::text;
use crate::values;
use vstd::prelude::*;
use vstd::string::*;

verus! {

/// The settings. Addresses are texts of the form `host:port`.
#[derive(Debug)]
pub struct Config {
    pub schema_path: String,
    pub warehouse_path: String,
    pub catalog_db_path: String,
    pub namespace: String,
    pub partition_id: u32,
    pub n_partitions: u32,
    pub rebuild_interval_secs: u64,
    pub listen_addr: String,
    pub metrics_listen_addr: String,
}

pub struct ConfigView {
    pub schema_path: Seq<char>,
    pub warehouse_path: Seq<char>,
    pub catalog_db_path: Seq<char>,
    pub namespace: Seq<char>,
    pub partition_id: u32,
    pub n_partitions: u32,
    pub rebuild_interval_secs: u64,
    pub listen_addr: Seq<char>,
    pub metrics_listen_addr: Seq<char>,
}

impl View for Config {
    type V = ConfigView;

    open spec fn view(&self) -> ConfigView {
        ConfigView {
            schema_path: self.schema_path@,
            warehouse_path: self.warehouse_path@,
            catalog_db_path: self.catalog_db_path@,
            namespace: self.namespace@,
            partition_id: self.partition_id,
            n_partitions: self.n_partitions,
            rebuild_interval_secs: self.rebuild_interval_secs,
            listen_addr: self.listen_addr@,
            metrics_listen_addr: self.metrics_listen_addr@,
        }
    }
}

/// The environment variables that are read; `None` where one is not set.
#[derive(Debug)]
pub struct Environment {
    /// `GRAPH_SCHEMA_PATH`
    pub schema_path: Option<String>,
    /// `GRAPH_WAREHOUSE_PATH`
    pub warehouse_path: Option<String>,
    /// `GRAPH_CATALOG_DB_PATH`
    pub catalog_db_path: Option<String>,
    /// `GRAPH_NAMESPACE`
    pub namespace: Option<String>,
    /// `GRAPH_PARTITION_ID`
    pub partition_id: Option<String>,
    /// `GRAPH_N_PARTITIONS`
    pub n_partitions: Option<String>,
    /// `GRAPH_REBUILD_INTERVAL_SECS`
    pub rebuild_interval_secs: Option<String>,
    /// `GRAPH_PARTITION_LISTEN_ADDR`
    pub listen_addr: Option<String>,
    /// `GRAPH_PARTITION_METRICS_LISTEN_ADDR`
    pub metrics_listen_addr: Option<String>,
}

pub struct EnvironmentView {
    pub schema_path: Option<Seq<char>>,
    pub warehouse_path: Option<Seq<char>>,
    pub catalog_db_path: Option<Seq<char>>,
    pub namespace: Option<Seq<char>>,
    pub partition_id: Option<Seq<char>>,
    pub n_partitions: Option<Seq<char>>,
    pub rebuild_interval_secs: Option<Seq<char>>,
    pub listen_addr: Option<Seq<char>>,
    pub metrics_listen_addr: Option<Seq<char>>,
}

impl View for Environment {
    type V = EnvironmentView;

    open spec fn view(&self) -> EnvironmentView {
        EnvironmentView {
            schema_path: text::option_view(self.schema_path),
            warehouse_path: text::option_view(self.warehouse_path),
            catalog_db_path: text::option_view(self.catalog_db_path),
            namespace: text::option_view(self.namespace),
            partition_id: text::option_view(self.partition_id),
            n_partitions: text::option_view(self.n_partitions),
            rebuild_interval_secs: text::option_view(self.rebuild_interval_secs),
            listen_addr: text::option_view(self.listen_addr),
            metrics_listen_addr: text::option_view(self.metrics_listen_addr),
        }
    }
}

pub open spec fn listen_text(env: EnvironmentView) -> Seq<char> {
    environment::setting(env.listen_addr, "0.0.0.0:7001"@)
}

pub open spec fn metrics_text(env: EnvironmentView) -> Seq<char> {
    environment::setting(env.metrics_listen_addr, "0.0.0.0:9100"@)
}

/// The settings that an environment gives, where `listen_valid` and
/// `metrics_valid` say whether its two address texts are socket addresses.
pub open spec fn config_of(env: EnvironmentView, listen_valid: bool, metrics_valid: bool) -> Result<
    ConfigView,
    ConfigErrorView,
> {
    match env.schema_path {
        None => Err(ConfigErrorView::MissingEnv("GRAPH_SCHEMA_PATH"@)),
        Some(schema_path) => match environment::number_setting(
            "GRAPH_PARTITION_ID"@,
            env.partition_id,
            0,
            u32::MAX as int,
        ) {
            Err(e) => Err(e),
            Ok(partition_id) => match environment::number_setting(
                "GRAPH_N_PARTITIONS"@,
                env.n_partitions,
                1,
                u32::MAX as int,
            ) {
                Err(e) => Err(e),
                Ok(n_partitions) => match environment::number_setting(
                    "GRAPH_REBUILD_INTERVAL_SECS"@,
                    env.rebuild_interval_secs,
                    30,
                    u64::MAX as int,
                ) {
                    Err(e) => Err(e),
                    Ok(secs) => match environment::address_setting(
                        "GRAPH_PARTITION_LISTEN_ADDR"@,
                        listen_text(env),
                        listen_valid,
                    ) {
                        Err(e) => Err(e),
                        Ok(listen_addr) => match environment::address_setting(
                            "GRAPH_PARTITION_METRICS_LISTEN_ADDR"@,
                            metrics_text(env),
                            metrics_valid,
                        ) {
                            Err(e) => Err(e),
                            Ok(metrics_listen_addr) => Ok(
                                ConfigView {
                                    schema_path,
                                    warehouse_path: environment::setting(
                                        env.warehouse_path,
                                        "./warehouse"@,
                                    ),
                                    catalog_db_path: environment::setting(
                                        env.catalog_db_path,
                                        "./catalog.sqlite"@,
                                    ),
                                    namespace: environment::setting(env.namespace, "graph"@),
                                    partition_id: partition_id as u32,
                                    n_partitions: n_partitions as u32,
                                    rebuild_interval_secs: secs as u64,
                                    listen_addr,
                                    metrics_listen_addr,
                                },
                            ),
                        },
                    },
                },
            },
        },
    }
}

/// What a result stands for.
pub open spec fn config_view(r: Result<Config, ConfigError>) -> Result<
    ConfigView,
    ConfigErrorView,
> {
    match r {
        Ok(c) => Ok(c@),
        Err(e) => Err(e@),
    }
}

impl Environment {
    /// The text that has to be the address to listen on.
    pub fn listen_address(&self) -> (r: String)
        ensures
            r@ == listen_text(self@),
    {
        setting_or(&self.listen_addr, "0.0.0.0:7001")
    }

    /// The text that has to be the address to serve metrics on.
    pub fn metrics_address(&self) -> (r: String)
        ensures
            r@ == metrics_text(self@),
    {
        setting_or(&self.metrics_listen_addr, "0.0.0.0:9100")
    }
}

impl Config {
    /// Takes the settings from an environment. `listen_valid` and
    /// `metrics_valid` say whether `env.listen_address()` and
    /// `env.metrics_address()` are socket addresses.
    pub fn from_env(env: &Environment, listen_valid: bool, metrics_valid: bool) -> (r: Result<
        Self,
        ConfigError,
    >)
        ensures
            config_view(r) == config_of(env@, listen_valid, metrics_valid),
    {
        let schema_path: String = match &env.schema_path {
            None => {
                return Err(ConfigError::MissingEnv("GRAPH_SCHEMA_PATH"));
            },
            Some(p) => p.clone(),
        };
        let partition_id: u64 = match parse_env(
            "GRAPH_PARTITION_ID",
            &env.partition_id,
            0,
            u32::MAX as u64,
        ) {
            Err(e) => {
                return Err(e);
            },
            Ok(n) => n,
        };
        let n_partitions: u64 = match parse_env(
            "GRAPH_N_PARTITIONS",
            &env.n_partitions,
            1,
            u32::MAX as u64,
        ) {
            Err(e) => {
                return Err(e);
            },
            Ok(n) => n,
        };
        let rebuild_interval_secs: u64 = match parse_env(
            "GRAPH_REBUILD_INTERVAL_SECS",
            &env.rebuild_interval_secs,
            30,
            u64::MAX,
        ) {
            Err(e) => {
                return Err(e);
            },
            Ok(n) => n,
        };
        let listen_addr = match checked_address(
            "GRAPH_PARTITION_LISTEN_ADDR",
            env.listen_address(),
            listen_valid,
        ) {
            Err(e) => {
                return Err(e);
            },
            Ok(a) => a,
        };
        let metrics_listen_addr = match checked_address(
            "GRAPH_PARTITION_METRICS_LISTEN_ADDR",
            env.metrics_address(),
            metrics_valid,
        ) {
            Err(e) => {
                return Err(e);
            },
            Ok(a) => a,
        };
        Ok(
            Config {
                schema_path,
                warehouse_path: setting_or(&env.warehouse_path, "./warehouse"),
                catalog_db_path: setting_or(&env.catalog_db_path, "./catalog.sqlite"),
                namespace: setting_or(&env.namespace, "graph"),
                partition_id: partition_id as u32,
                n_partitions: n_partitions as u32,
                rebuild_interval_secs,
                listen_addr,
                metrics_listen_addr,
            },
        )
    }
}

/// A text, or another one where it is not set.
pub open spec fn text_or(value: Option<Seq<char>>, default: Seq<char>) -> Seq<char> {
    match value {
        Some(v) => v,
        None => default,
    }
}

/// Each setting is taken from its own variable, or is its default where that is
/// not set.
pub proof fn law_settings_are_taken_from_their_variables(
    env: EnvironmentView,
    listen_valid: bool,
    metrics_valid: bool,
)
    ensures
        config_of(env, listen_valid, metrics_valid) matches Ok(c) ==> {
            &&& env.schema_path == Some(c.schema_path)
            &&& c.warehouse_path == text_or(env.warehouse_path, "./warehouse"@)
            &&& c.catalog_db_path == text_or(env.catalog_db_path, "./catalog.sqlite"@)
            &&& c.namespace == text_or(env.namespace, "graph"@)
            &&& environment::is_number(
                env.partition_id,
                0,
                u32::MAX as int,
                c.partition_id as int,
            )
            &&& environment::is_number(
                env.n_partitions,
                1,
                u32::MAX as int,
                c.n_partitions as int,
            )
            &&& environment::is_number(
                env.rebuild_interval_secs,
                30,
                u64::MAX as int,
                c.rebuild_interval_secs as int,
            )
            &&& c.listen_addr == text_or(env.listen_addr, "0.0.0.0:7001"@)
            &&& c.metrics_listen_addr == text_or(env.metrics_listen_addr, "0.0.0.0:9100"@)
            &&& listen_valid && metrics_valid
        },
        config_of(env, listen_valid, metrics_valid) is Ok <==> {
            &&& env.schema_path is Some
            &&& env.partition_id matches Some(t) ==> values::unsigned_of(t, u32::MAX as int) is Some
            &&& env.n_partitions matches Some(t) ==> values::unsigned_of(t, u32::MAX as int) is Some
            &&& env.rebuild_interval_secs matches Some(t) ==> values::unsigned_of(
                t,
                u64::MAX as int,
            ) is Some
            &&& listen_valid && metrics_valid
        },
        env.schema_path is None ==> config_of(env, listen_valid, metrics_valid) == Err::<
            ConfigView,
            ConfigErrorView,
        >(ConfigErrorView::MissingEnv("GRAPH_SCHEMA_PATH"@)),
{
    if let Ok(id) = environment::number_setting(
        "GRAPH_PARTITION_ID"@,
        env.partition_id,
        0,
        u32::MAX as int,
    ) {
        lemma_in_range(env.partition_id, 0, u32::MAX as int, id);
    }
    if let Ok(n) = environment::number_setting(
        "GRAPH_N_PARTITIONS"@,
        env.n_partitions,
        1,
        u32::MAX as int,
    ) {
        lemma_in_range(env.n_partitions, 1, u32::MAX as int, n);
    }
    if let Ok(secs) = environment::number_setting(
        "GRAPH_REBUILD_INTERVAL_SECS"@,
        env.rebuild_interval_secs,
        30,
        u64::MAX as int,
    ) {
        lemma_in_range(env.rebuild_interval_secs, 30, u64::MAX as int, secs);
    }
}

proof fn lemma_in_range(value: Option<Seq<char>>, default: int, max: int, n: int)
    requires
        0 <= default <= max,
        environment::number_setting(seq![], value, default, max) == Ok::<int, ConfigErrorView>(n),
    ensures
        environment::is_number(value, default, max, n),
        0 <= n <= max,
{
    environment::law_a_number_is_taken_as_written(seq![], value, default, max, n);
    if let Some(s) = value {
        let digits = if s.len() > 0 && s[0] == '+' {
            s.drop_first()
        } else {
            s
        };
        text::lemma_decimal_nonnegative(digits);
    }
}

} // verus!
