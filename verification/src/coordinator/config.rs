//! Settings of the coordinator.
pub use crate::environment::ConfigError;
use crate::environment;
use crate::environment::{checked_address, parse_env, setting_or, ConfigErrorView};
use crate::layout;
use crate::text;
use crate::values;
use vstd::prelude::*;
use vstd::string::*;

verus! {

/// How the coordinator learns which replicas there are.
#[derive(Debug)]
pub enum DiscoveryMode {
    Static { partition_addrs: Vec<(u32, String)> },
    Kubernetes { namespace: String, label_selector: String, partition_port: u16 },
}

pub enum DiscoveryModeView {
    Static { partition_addrs: Seq<(u32, Seq<char>)> },
    Kubernetes { namespace: Seq<char>, label_selector: Seq<char>, partition_port: u16 },
}

/// Partitions with their addresses.
pub open spec fn address_views(addrs: Seq<(u32, String)>) -> Seq<(u32, Seq<char>)> {
    Seq::new(addrs.len(), |i: int| (addrs[i].0, addrs[i].1@))
}

impl View for DiscoveryMode {
    type V = DiscoveryModeView;

    open spec fn view(&self) -> DiscoveryModeView {
        match self {
            DiscoveryMode::Static { partition_addrs } => DiscoveryModeView::Static {
                partition_addrs: address_views(partition_addrs@),
            },
            DiscoveryMode::Kubernetes { namespace, label_selector, partition_port } =>
                DiscoveryModeView::Kubernetes {
                    namespace: namespace@,
                    label_selector: label_selector@,
                    partition_port: *partition_port,
                },
        }
    }
}

/// The settings. Addresses are texts of the form `host:port`.
#[derive(Debug)]
pub struct Config {
    pub schema_path: String,
    pub discovery: DiscoveryMode,
    pub n_partitions: u32,
    pub listen_addr: String,
    pub metrics_listen_addr: String,
}

pub struct ConfigView {
    pub schema_path: Seq<char>,
    pub discovery: DiscoveryModeView,
    pub n_partitions: u32,
    pub listen_addr: Seq<char>,
    pub metrics_listen_addr: Seq<char>,
}

impl View for Config {
    type V = ConfigView;

    open spec fn view(&self) -> ConfigView {
        ConfigView {
            schema_path: self.schema_path@,
            discovery: self.discovery@,
            n_partitions: self.n_partitions,
            listen_addr: self.listen_addr@,
            metrics_listen_addr: self.metrics_listen_addr@,
        }
    }
}

/// The environment variables that are read; `None` where one is not set.
#[derive(Debug)]
pub struct Environment {
    /// `GRAPH_SCHEMA_PATH`
    pub schema_path: Option<String>,
    /// `GRAPH_N_PARTITIONS`
    pub n_partitions: Option<String>,
    /// `GRAPH_COORDINATOR_LISTEN_ADDR`
    pub listen_addr: Option<String>,
    /// `GRAPH_COORDINATOR_METRICS_LISTEN_ADDR`
    pub metrics_listen_addr: Option<String>,
    /// `GRAPH_DISCOVERY_MODE`
    pub discovery_mode: Option<String>,
    /// `GRAPH_K8S_NAMESPACE`
    pub k8s_namespace: Option<String>,
    /// `GRAPH_K8S_LABEL_SELECTOR`
    pub k8s_label_selector: Option<String>,
    /// `GRAPH_K8S_PARTITION_PORT`
    pub k8s_partition_port: Option<String>,
    /// `GRAPH_PARTITION_NODE_ADDRS`
    pub partition_node_addrs: Option<String>,
}

pub struct EnvironmentView {
    pub schema_path: Option<Seq<char>>,
    pub n_partitions: Option<Seq<char>>,
    pub listen_addr: Option<Seq<char>>,
    pub metrics_listen_addr: Option<Seq<char>>,
    pub discovery_mode: Option<Seq<char>>,
    pub k8s_namespace: Option<Seq<char>>,
    pub k8s_label_selector: Option<Seq<char>>,
    pub k8s_partition_port: Option<Seq<char>>,
    pub partition_node_addrs: Option<Seq<char>>,
}

impl View for Environment {
    type V = EnvironmentView;

    open spec fn view(&self) -> EnvironmentView {
        EnvironmentView {
            schema_path: text::option_view(self.schema_path),
            n_partitions: text::option_view(self.n_partitions),
            listen_addr: text::option_view(self.listen_addr),
            metrics_listen_addr: text::option_view(self.metrics_listen_addr),
            discovery_mode: text::option_view(self.discovery_mode),
            k8s_namespace: text::option_view(self.k8s_namespace),
            k8s_label_selector: text::option_view(self.k8s_label_selector),
            k8s_partition_port: text::option_view(self.k8s_partition_port),
            partition_node_addrs: text::option_view(self.partition_node_addrs),
        }
    }
}

/// The address that an entry of the form `partition=address` gives; empty
/// where it gives none.
pub open spec fn entry_address(entry: Seq<char>) -> Seq<char> {
    match values::halves(entry, '=') {
        Some((partition, address)) => address,
        None => seq![],
    }
}

pub open spec fn entry_addresses(entries: Seq<Seq<char>>) -> Seq<Seq<char>> {
    Seq::new(entries.len(), |i: int| entry_address(entries[i]))
}

/// The texts that have to be socket addresses: where to listen, where to
/// serve metrics, and one for each entry of the list of partitions.
pub open spec fn address_texts(env: EnvironmentView) -> Seq<Seq<char>> {
    seq![
        environment::setting(env.listen_addr, "0.0.0.0:7000"@),
        environment::setting(env.metrics_listen_addr, "0.0.0.0:9100"@),
    ] + entry_addresses(
        values::parts(
            environment::setting(env.partition_node_addrs, "0=127.0.0.1:7001"@),
            ',',
        ),
    )
}

/// One entry of the list of partitions.
pub open spec fn entry_value(entry: Seq<char>, valid: bool) -> Result<
    (u32, Seq<char>),
    ConfigErrorView,
> {
    match values::halves(entry, '=') {
        None => Err(
            ConfigErrorView::InvalidEnv(
                "GRAPH_PARTITION_NODE_ADDRS"@,
                "expected \"<partition_id>=<host:port>\", got "@ + values::debug_of(entry),
            ),
        ),
        Some((partition, address)) => match values::unsigned_of(partition, u32::MAX as int) {
            None => Err(
                ConfigErrorView::InvalidEnv(
                    "GRAPH_PARTITION_NODE_ADDRS"@,
                    values::debug_of(partition) + " is not a valid partition id"@,
                ),
            ),
            Some(n) => if valid {
                Ok((n as u32, address))
            } else {
                Err(
                    ConfigErrorView::InvalidEnv(
                        "GRAPH_PARTITION_NODE_ADDRS"@,
                        values::debug_of(address) + " is not a valid socket address"@,
                    ),
                )
            },
        },
    }
}

/// The list of partitions, or the error of the first entry that has one.
pub open spec fn entries_value(entries: Seq<Seq<char>>, valid: Seq<bool>) -> Result<
    Seq<(u32, Seq<char>)>,
    ConfigErrorView,
>
    decreases entries.len(),
{
    if entries.len() == 0 {
        Ok(seq![])
    } else {
        match entries_value(entries.drop_last(), valid) {
            Err(e) => Err(e),
            Ok(done) => match entry_value(entries.last(), valid[entries.len() - 1]) {
                Err(e) => Err(e),
                Ok(x) => Ok(done.push(x)),
            },
        }
    }
}

/// The way of discovery that is set.
pub open spec fn discovery_setting(env: EnvironmentView, valid: Seq<bool>) -> Result<
    DiscoveryModeView,
    ConfigErrorView,
> {
    let mode = environment::setting(env.discovery_mode, "static"@);
    if mode == "kubernetes"@ {
        match environment::number_setting(
            "GRAPH_K8S_PARTITION_PORT"@,
            env.k8s_partition_port,
            7001,
            u16::MAX as int,
        ) {
            Err(e) => Err(e),
            Ok(port) => Ok(
                DiscoveryModeView::Kubernetes {
                    namespace: environment::setting(env.k8s_namespace, "default"@),
                    label_selector: environment::setting(
                        env.k8s_label_selector,
                        "app=graph-partition-node"@,
                    ),
                    partition_port: port as u16,
                },
            ),
        }
    } else if mode == "static"@ {
        match entries_value(
            values::parts(
                environment::setting(env.partition_node_addrs, "0=127.0.0.1:7001"@),
                ',',
            ),
            valid.skip(2),
        ) {
            Err(e) => Err(e),
            Ok(partition_addrs) => Ok(DiscoveryModeView::Static { partition_addrs }),
        }
    } else {
        Err(
            ConfigErrorView::InvalidEnv(
                "GRAPH_DISCOVERY_MODE"@,
                values::debug_of(mode) + " (expected \"static\" or \"kubernetes\")"@,
            ),
        )
    }
}

/// The settings that an environment gives, where `valid` says of each of its
/// address texts whether it is a socket address.
pub open spec fn config_of(env: EnvironmentView, valid: Seq<bool>) -> Result<
    ConfigView,
    ConfigErrorView,
> {
    match env.schema_path {
        None => Err(ConfigErrorView::MissingEnv("GRAPH_SCHEMA_PATH"@)),
        Some(schema_path) => match environment::number_setting(
            "GRAPH_N_PARTITIONS"@,
            env.n_partitions,
            1,
            u32::MAX as int,
        ) {
            Err(e) => Err(e),
            Ok(n) => match environment::address_setting(
                "GRAPH_COORDINATOR_LISTEN_ADDR"@,
                address_texts(env)[0],
                valid[0],
            ) {
                Err(e) => Err(e),
                Ok(listen_addr) => match environment::address_setting(
                    "GRAPH_COORDINATOR_METRICS_LISTEN_ADDR"@,
                    address_texts(env)[1],
                    valid[1],
                ) {
                    Err(e) => Err(e),
                    Ok(metrics_listen_addr) => match discovery_setting(env, valid) {
                        Err(e) => Err(e),
                        Ok(discovery) => Ok(
                            ConfigView {
                                schema_path,
                                discovery,
                                n_partitions: n as u32,
                                listen_addr,
                                metrics_listen_addr,
                            },
                        ),
                    },
                },
            },
        },
    }
}

/// What a result stands for.
pub open spec fn config_view(r: Result<Config, ConfigError>) -> Result<
    ConfigView,
    ConfigErrorView,
> {
    match r {
        Ok(c) => Ok(c@),
        Err(e) => Err(e@),
    }
}

/// What a result stands for.
pub open spec fn addrs_view(r: Result<Vec<(u32, String)>, ConfigError>) -> Result<
    Seq<(u32, Seq<char>)>,
    ConfigErrorView,
> {
    match r {
        Ok(a) => Ok(address_views(a@)),
        Err(e) => Err(e@),
    }
}

/// What a result stands for.
pub open spec fn discovery_view(r: Result<DiscoveryMode, ConfigError>) -> Result<
    DiscoveryModeView,
    ConfigErrorView,
> {
    match r {
        Ok(d) => Ok(d@),
        Err(e) => Err(e@),
    }
}

fn invalid_addrs(text: String) -> (r: ConfigError)
    ensures
        r@ == ConfigErrorView::InvalidEnv("GRAPH_PARTITION_NODE_ADDRS"@, text@),
{
    ConfigError::InvalidEnv("GRAPH_PARTITION_NODE_ADDRS", text)
}

fn parse_entry(entry: &str, valid: bool) -> (r: Result<(u32, String), ConfigError>)
    ensures
        match r {
            Ok((p, a)) => entry_value(entry@, valid) == Ok::<
                (u32, Seq<char>),
                ConfigErrorView,
            >((p, a@)),
            Err(e) => entry_value(entry@, valid) == Err::<(u32, Seq<char>), ConfigErrorView>(e@),
        },
{
    match values::split_once(entry, '=') {
        None => {
            let mut text: String = "expected \"<partition_id>=<host:port>\", got ".to_owned();
            text.append(values::debug_text(entry).as_str());
            Err(invalid_addrs(text))
        },
        Some((partition, address)) => match values::parse_unsigned(
            partition.as_str(),
            u32::MAX as u64,
        ) {
            None => {
                let mut text: String = values::debug_text(partition.as_str());
                text.append(" is not a valid partition id");
                Err(invalid_addrs(text))
            },
            Some(n) => if valid {
                Ok((n as u32, address))
            } else {
                let mut text: String = values::debug_text(address.as_str());
                text.append(" is not a valid socket address");
                Err(invalid_addrs(text))
            },
        },
    }
}

/// Reads a list such as `0=127.0.0.1:7001,1=127.0.0.1:7002`; `valid` says of
/// the address of each entry whether it is one.
pub fn parse_static_partition_addrs(raw: &str, valid: &Vec<bool>) -> (r: Result<
    Vec<(u32, String)>,
    ConfigError,
>)
    requires
        valid@.len() == values::parts(raw@, ',').len(),
    ensures
        addrs_view(r) == entries_value(values::parts(raw@, ','), valid@),
{
    let entries = values::split(raw, ',');
    let ghost all = values::parts(raw@, ',');
    let mut out: Vec<(u32, String)> = Vec::new();
    let mut i: usize = 0;
    proof {
        assert(all.take(0) =~= Seq::<Seq<char>>::empty());
        assert(address_views(out@) =~= Seq::<(u32, Seq<char>)>::empty());
    }
    while i < entries.len()
        invariant
            i <= entries@.len(),
            all == text::views(entries@),
            all == values::parts(raw@, ','),
            valid@.len() == all.len(),
            entries_value(all.take(i as int), valid@) == Ok::<
                Seq<(u32, Seq<char>)>,
                ConfigErrorView,
            >(address_views(out@)),
        decreases entries.len() - i,
    {
        proof {
            assert(all.take(i + 1).drop_last() =~= all.take(i as int));
            assert(all.take(i + 1).last() == entries@[i as int]@);
        }
        match parse_entry(entries[i].as_str(), valid[i]) {
            Err(e) => {
                proof {
                    lemma_entries_stop(all, valid@, i + 1);
                }
                return Err(e);
            },
            Ok(x) => {
                let ghost before = out@;
                out.push(x);
                assert(address_views(out@) =~= address_views(before).push((x.0, x.1@)));
            },
        }
        i = i + 1;
    }
    assert(all.take(all.len() as int) =~= all);
    Ok(out)
}

proof fn lemma_entries_stop(entries: Seq<Seq<char>>, valid: Seq<bool>, n: int)
    requires
        0 <= n <= entries.len(),
        entries_value(entries.take(n), valid) is Err,
    ensures
        entries_value(entries, valid) == entries_value(entries.take(n), valid),
    decreases entries.len() - n,
{
    if n == entries.len() {
        assert(entries.take(n) =~= entries);
    } else {
        assert(entries.take(n + 1).drop_last() =~= entries.take(n));
        lemma_entries_stop(entries, valid, n + 1);
    }
}

fn rest_of(valid: &Vec<bool>, from: usize) -> (r: Vec<bool>)
    requires
        from <= valid@.len(),
    ensures
        r@ == valid@.skip(from as int),
{
    let mut out: Vec<bool> = Vec::new();
    let mut i: usize = from;
    while i < valid.len()
        invariant
            from <= i <= valid@.len(),
            out@ == valid@.subrange(from as int, i as int),
        decreases valid.len() - i,
    {
        out.push(valid[i]);
        assert(out@ =~= valid@.subrange(from as int, i + 1));
        i = i + 1;
    }
    assert(out@ =~= valid@.skip(from as int));
    out
}

impl Environment {
    /// The texts that have to be socket addresses.
    pub fn addresses(&self) -> (r: Vec<String>)
        ensures
            text::views(r@) == address_texts(self@),
    {
        let mut out: Vec<String> = Vec::new();
        out.push(setting_or(&self.listen_addr, "0.0.0.0:7000"));
        out.push(setting_or(&self.metrics_listen_addr, "0.0.0.0:9100"));
        let raw = setting_or(&self.partition_node_addrs, "0=127.0.0.1:7001");
        let entries = values::split(raw.as_str(), ',');
        let ghost all = values::parts(raw@, ',');
        let ghost head = text::views(out@);
        let mut i: usize = 0;
        proof {
            assert(head + entry_addresses(all.take(0)) =~= head);
        }
        while i < entries.len()
            invariant
                i <= entries@.len(),
                all == text::views(entries@),
                text::views(out@) == head + entry_addresses(all.take(i as int)),
            decreases entries.len() - i,
        {
            let ghost before = out@;
            let address: String = match values::split_once(entries[i].as_str(), '=') {
                Some((_, address)) => address,
                None => String::new(),
            };
            assert(address@ =~= entry_address(all[i as int]));
            out.push(address);
            proof {
                text::lemma_views_push(before, address);
                assert(text::views(out@) =~= head + entry_addresses(all.take(i + 1)));
            }
            i = i + 1;
        }
        proof {
            assert(all.take(all.len() as int) =~= all);
            assert(head =~= seq![
                environment::setting(self@.listen_addr, "0.0.0.0:7000"@),
                environment::setting(self@.metrics_listen_addr, "0.0.0.0:9100"@),
            ]);
        }
        out
    }

    fn discovery(&self, valid: &Vec<bool>) -> (r: Result<DiscoveryMode, ConfigError>)
        requires
            valid@.len() == address_texts(self@).len(),
        ensures
            discovery_view(r) == discovery_setting(self@, valid@),
    {
        let mode = setting_or(&self.discovery_mode, "static");
        if text::str_eq(mode.as_str(), "kubernetes") {
            match parse_env(
                "GRAPH_K8S_PARTITION_PORT",
                &self.k8s_partition_port,
                7001,
                u16::MAX as u64,
            ) {
                Err(e) => Err(e),
                Ok(port) => Ok(
                    DiscoveryMode::Kubernetes {
                        namespace: setting_or(&self.k8s_namespace, "default"),
                        label_selector: setting_or(
                            &self.k8s_label_selector,
                            "app=graph-partition-node",
                        ),
                        partition_port: port as u16,
                    },
                ),
            }
        } else if text::str_eq(mode.as_str(), "static") {
            let raw = setting_or(&self.partition_node_addrs, "0=127.0.0.1:7001");
            match parse_static_partition_addrs(raw.as_str(), &rest_of(valid, 2)) {
                Err(e) => Err(e),
                Ok(partition_addrs) => Ok(DiscoveryMode::Static { partition_addrs }),
            }
        } else {
            let mut text: String = values::debug_text(mode.as_str());
            text.append(" (expected \"static\" or \"kubernetes\")");
            Err(ConfigError::InvalidEnv("GRAPH_DISCOVERY_MODE", text))
        }
    }
}

impl Config {
    /// Takes the settings from an environment. `valid` says of each text of
    /// `env.addresses()` whether it is a socket address.
    pub fn from_env(env: &Environment, valid: &Vec<bool>) -> (r: Result<Self, ConfigError>)
        requires
            valid@.len() == address_texts(env@).len(),
        ensures
            config_view(r) == config_of(env@, valid@),
    {
        let schema_path: String = match &env.schema_path {
            None => {
                return Err(ConfigError::MissingEnv("GRAPH_SCHEMA_PATH"));
            },
            Some(p) => p.clone(),
        };
        let n_partitions: u64 = match parse_env(
            "GRAPH_N_PARTITIONS",
            &env.n_partitions,
            1,
            u32::MAX as u64,
        ) {
            Err(e) => {
                return Err(e);
            },
            Ok(n) => n,
        };
        let listen_addr = match checked_address(
            "GRAPH_COORDINATOR_LISTEN_ADDR",
            setting_or(&env.listen_addr, "0.0.0.0:7000"),
            valid[0],
        ) {
            Err(e) => {
                return Err(e);
            },
            Ok(a) => a,
        };
        let metrics_listen_addr = match checked_address(
            "GRAPH_COORDINATOR_METRICS_LISTEN_ADDR",
            setting_or(&env.metrics_listen_addr, "0.0.0.0:9100"),
            valid[1],
        ) {
            Err(e) => {
                return Err(e);
            },
            Ok(a) => a,
        };
        match env.discovery(valid) {
            Err(e) => Err(e),
            Ok(discovery) => Ok(
                Config {
                    schema_path,
                    discovery,
                    n_partitions: n_partitions as u32,
                    listen_addr,
                    metrics_listen_addr,
                },
            ),
        }
    }
}

/// `partition=address`.
pub open spec fn entry_text(digits: Seq<char>, address: Seq<char>) -> Seq<char> {
    digits.push('=') + address
}

/// An entry reads as the partition that its digits write and the address behind
/// the sign, where that is a socket address.
pub proof fn law_a_written_entry_reads_back(digits: Seq<char>, n: u32, address: Seq<char>)
    requires
        layout::writes(digits, n as int),
    ensures
        entry_value(entry_text(digits, address), true) == Ok::<(u32, Seq<char>), ConfigErrorView>(
            (n, address),
        ),
        entry_value(entry_text(digits, address), false) is Err,
        entry_address(entry_text(digits, address)) == address,
{
    let s = entry_text(digits, address);
    if digits.contains('=') {
        let i = choose|i: int| 0 <= i < digits.len() && digits[i] == '=';
        assert('0' <= digits[i] && digits[i] <= '9');
    }
    values::law_a_text_is_split_at_the_first_place(s, '=', digits, address);
    values::law_a_number_is_what_its_digits_write(digits, u32::MAX as int, n as int);
}

/// The texts of a list of partitions.
pub open spec fn entry_texts(entries: Seq<(Seq<char>, u32, Seq<char>)>) -> Seq<Seq<char>> {
    Seq::new(entries.len(), |i: int| entry_text(entries[i].0, entries[i].2))
}

/// A list of partitions reads as it is written: each partition with its
/// address, in their order.
pub proof fn law_a_written_list_reads_back(
    entries: Seq<(Seq<char>, u32, Seq<char>)>,
    valid: Seq<bool>,
)
    requires
        entries.len() > 0,
        valid.len() >= entries.len(),
        forall|i: int|
            0 <= i < entries.len() ==> layout::writes(
                (#[trigger] entries[i]).0,
                entries[i].1 as int,
            ) && !entries[i].2.contains(',') && valid[i],
    ensures
        entries_value(values::parts(values::joined(entry_texts(entries), ','), ','), valid) == Ok::<
            Seq<(u32, Seq<char>)>,
            ConfigErrorView,
        >(Seq::new(entries.len(), |i: int| (entries[i].1, entries[i].2))),
{
    let texts = entry_texts(entries);
    assert forall|k: int| 0 <= k < texts.len() implies !(#[trigger] texts[k]).contains(',') by {
        let (digits, n, address) = entries[k];
        if texts[k].contains(',') {
            let i = choose|i: int| 0 <= i < texts[k].len() && texts[k][i] == ',';
            if i < digits.len() {
                assert('0' <= digits[i] && digits[i] <= '9');
            } else if i > digits.len() {
                assert(address[i - digits.len() - 1] == ',');
            }
        }
    }
    values::law_joined_texts_are_split(texts, ',');
    lemma_entries(entries, valid, entries.len());
    assert(texts.take(entries.len() as int) =~= texts);
    assert(Seq::new(entries.len(), |i: int| (entries[i].1, entries[i].2)) =~= Seq::new(
        entries.len(),
        |i: int| (entries[i].1, entries[i].2),
    ));
}

proof fn lemma_entries(
    entries: Seq<(Seq<char>, u32, Seq<char>)>,
    valid: Seq<bool>,
    n: nat,
)
    requires
        n <= entries.len(),
        valid.len() >= entries.len(),
        forall|i: int|
            0 <= i < entries.len() ==> layout::writes(
                (#[trigger] entries[i]).0,
                entries[i].1 as int,
            ) && valid[i],
    ensures
        entries_value(entry_texts(entries).take(n as int), valid) == Ok::<
            Seq<(u32, Seq<char>)>,
            ConfigErrorView,
        >(Seq::new(n, |i: int| (entries[i].1, entries[i].2))),
    decreases n,
{
    let taken = entry_texts(entries).take(n as int);
    let all = Seq::new(n, |i: int| (entries[i].1, entries[i].2));
    if n == 0 {
        assert(all =~= Seq::<(u32, Seq<char>)>::empty());
    } else {
        let m = (n - 1) as nat;
        lemma_entries(entries, valid, m);
        assert(taken.drop_last() =~= entry_texts(entries).take(m as int));
        let (digits, k, address) = entries[n - 1];
        assert(taken.last() == entry_text(digits, address));
        law_a_written_entry_reads_back(digits, k, address);
        assert(Seq::new(m, |i: int| (entries[i].1, entries[i].2)).push((k, address)) =~= all);
    }
}

/// A text, or another one where it is not set.
pub open spec fn text_or(value: Option<Seq<char>>, default: Seq<char>) -> Seq<char> {
    match value {
        Some(v) => v,
        None => default,
    }
}

/// Each setting is taken from its own variable, or is its default where that is
/// not set. The way of discovery is `static` or `kubernetes`, and nothing else.
pub proof fn law_settings_are_taken_from_their_variables(env: EnvironmentView, valid: Seq<bool>)
    ensures
        config_of(env, valid) matches Ok(c) ==> {
            &&& env.schema_path == Some(c.schema_path)
            &&& environment::is_number(env.n_partitions, 1, u32::MAX as int, c.n_partitions as int)
            &&& c.listen_addr == text_or(env.listen_addr, "0.0.0.0:7000"@)
            &&& c.metrics_listen_addr == text_or(env.metrics_listen_addr, "0.0.0.0:9100"@)
            &&& valid[0] && valid[1]
            &&& match c.discovery {
                DiscoveryModeView::Kubernetes { namespace, label_selector, partition_port } => {
                    &&& env.discovery_mode == Some("kubernetes"@)
                    &&& namespace == text_or(env.k8s_namespace, "default"@)
                    &&& label_selector == text_or(
                        env.k8s_label_selector,
                        "app=graph-partition-node"@,
                    )
                    &&& environment::is_number(
                        env.k8s_partition_port,
                        7001,
                        u16::MAX as int,
                        partition_port as int,
                    )
                },
                DiscoveryModeView::Static { partition_addrs } => {
                    &&& env.discovery_mode is None || env.discovery_mode == Some("static"@)
                    &&& entries_value(
                        values::parts(
                            text_or(env.partition_node_addrs, "0=127.0.0.1:7001"@),
                            ',',
                        ),
                        valid.skip(2),
                    ) == Ok::<Seq<(u32, Seq<char>)>, ConfigErrorView>(partition_addrs)
                },
            }
        },
        env.schema_path is None ==> config_of(env, valid) == Err::<ConfigView, ConfigErrorView>(
            ConfigErrorView::MissingEnv("GRAPH_SCHEMA_PATH"@),
        ),
        env.schema_path is Some && (!valid[0] || !valid[1]) ==> config_of(env, valid) is Err,
{
    reveal_strlit("static");
    reveal_strlit("kubernetes");
    assert("static"@[0] != "kubernetes"@[0]);
    if let Ok(n) = environment::number_setting(
        "GRAPH_N_PARTITIONS"@,
        env.n_partitions,
        1,
        u32::MAX as int,
    ) {
        lemma_in_range(env.n_partitions, 1, u32::MAX as int, n);
    }
    if let Ok(n) = environment::number_setting(
        "GRAPH_K8S_PARTITION_PORT"@,
        env.k8s_partition_port,
        7001,
        u16::MAX as int,
    ) {
        lemma_in_range(env.k8s_partition_port, 7001, u16::MAX as int, n);
    }
}

/// Settings that can be taken are taken.
pub proof fn law_good_settings_are_taken(env: EnvironmentView, valid: Seq<bool>)
    requires
        env.schema_path is Some,
        env.n_partitions matches Some(t) ==> values::unsigned_of(t, u32::MAX as int) is Some,
        valid[0] && valid[1],
        env.discovery_mode == Some("kubernetes"@) ==> (env.k8s_partition_port matches Some(t)
            ==> values::unsigned_of(t, u16::MAX as int) is Some),
        env.discovery_mode is None || env.discovery_mode == Some("static"@) ==> entries_value(
            values::parts(text_or(env.partition_node_addrs, "0=127.0.0.1:7001"@), ','),
            valid.skip(2),
        ) is Ok,
    ensures
        config_of(env, valid) is Ok <==> env.discovery_mode is None || env.discovery_mode == Some(
            "static"@,
        ) || env.discovery_mode == Some("kubernetes"@),
{
    reveal_strlit("static");
    reveal_strlit("kubernetes");
    assert("static"@[0] != "kubernetes"@[0]);
}

proof fn lemma_in_range(value: Option<Seq<char>>, default: int, max: int, n: int)
    requires
        0 <= default <= max,
        environment::number_setting(seq![], value, default, max) == Ok::<int, ConfigErrorView>(n),
    ensures
        environment::is_number(value, default, max, n),
        0 <= n <= max,
{
    environment::law_a_number_is_taken_as_written(seq![], value, default, max, n);
    if let Some(s) = value {
        let digits = if s.len() > 0 && s[0] == '+' {
            s.drop_first()
        } else {
            s
        };
        text::lemma_decimal_nonnegative(digits);
    }
}

} // verus!
