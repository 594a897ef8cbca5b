//! The observer's configuration.
use vstd::hash_set::StringHashSet;
use vstd::prelude::*;

verus! {

pub const DEFAULT_INGESTION_PORT: u16 = 20455;

pub const DEFAULT_CONTROL_PORT: u16 = 20456;

/// The name of the file that is looked for where no configuration is given.
pub const CONFIG_FILE_NAME: &'static str = "Observer.toml";

/// The configuration that a new project gets.
pub const DEFAULT_CONFIG: &'static str = "
[storage]
driver = \"redis\"
redis_uri = \"redis://localhost:6379/\"

[chainhooks]
max_stacks_registrations = 500
max_bitcoin_registrations = 500

[network]
mode = \"devnet\"
bitcoin_node_rpc_url = \"http://0.0.0.0:18443\"
bitcoin_node_rpc_username = \"devnet\"
bitcoin_node_rpc_password = \"devnet\"
stacks_node_rpc_url = \"http://0.0.0.0:20443\"
";

/// The configuration that a new project gets.
pub fn generate_config() -> (conf: String)
    ensures
        conf@ == DEFAULT_CONFIG@,
{
    DEFAULT_CONFIG.to_owned()
}

/// A configuration as it stands in a file.
#[derive(Debug)]
pub struct EventObserverConfigFile {
    pub normalization_enabled: Option<bool>,
    pub grpc_server_enabled: Option<bool>,
    pub hooks_enabled: Option<bool>,
    pub bitcoin_rpc_proxy_enabled: Option<bool>,
    pub webhooks: Option<Vec<String>>,
    pub ingestion_port: Option<u16>,
    pub control_port: Option<u16>,
    pub bitcoin_node_username: String,
    pub bitcoin_node_password: String,
    pub bitcoin_node_rpc_url: String,
    pub stacks_node_rpc_url: String,
    pub operators: Option<Vec<String>>,
    pub cache_path: Option<String>,
}

impl Default for EventObserverConfigFile {
    fn default() -> (file: EventObserverConfigFile)
        ensures
            file.normalization_enabled is None,
            file.grpc_server_enabled is None,
            file.hooks_enabled is None,
            file.bitcoin_rpc_proxy_enabled is None,
            file.webhooks is None,
            file.ingestion_port is None,
            file.control_port is None,
            file.bitcoin_node_username@ == Seq::<char>::empty(),
            file.bitcoin_node_password@ == Seq::<char>::empty(),
            file.bitcoin_node_rpc_url@ == Seq::<char>::empty(),
            file.stacks_node_rpc_url@ == Seq::<char>::empty(),
            file.operators is None,
            file.cache_path is None,
    {
        EventObserverConfigFile {
            normalization_enabled: None,
            grpc_server_enabled: None,
            hooks_enabled: None,
            bitcoin_rpc_proxy_enabled: None,
            webhooks: None,
            ingestion_port: None,
            control_port: None,
            bitcoin_node_username: String::new(),
            bitcoin_node_password: String::new(),
            bitcoin_node_rpc_url: String::new(),
            stacks_node_rpc_url: String::new(),
            operators: None,
            cache_path: None,
        }
    }
}

/// What is told of an event.
#[derive(Debug)]
pub enum EventHandler {
    /// A request to an address.
    WebHook(String),
}

impl View for EventHandler {
    type V = Seq<char>;

    open spec fn view(&self) -> Seq<char> {
        match *self {
            EventHandler::WebHook(address) => address@,
        }
    }
}

/// The registered hooks, by chain.
#[derive(Debug)]
pub struct ChainhookConfig {
    pub stacks_chainhooks: Vec<String>,
    pub bitcoin_chainhooks: Vec<String>,
}

impl ChainhookConfig {
    /// No hooks.
    pub fn new() -> (config: ChainhookConfig)
        ensures
            config.stacks_chainhooks@ == Seq::<String>::empty(),
            config.bitcoin_chainhooks@ == Seq::<String>::empty(),
    {
        ChainhookConfig { stacks_chainhooks: Vec::new(), bitcoin_chainhooks: Vec::new() }
    }
}

/// A configuration in which every choice is made.
pub struct EventObserverConfig {
    pub normalization_enabled: bool,
    pub grpc_server_enabled: bool,
    pub hooks_enabled: bool,
    pub bitcoin_rpc_proxy_enabled: bool,
    pub event_handlers: Vec<EventHandler>,
    pub chainhook_config: Option<ChainhookConfig>,
    pub ingestion_port: u16,
    pub control_port: u16,
    pub bitcoin_node_username: String,
    pub bitcoin_node_password: String,
    pub bitcoin_node_rpc_url: String,
    pub stacks_node_rpc_url: String,
    pub operators: StringHashSet,
    pub display_logs: bool,
    pub cache_path: String,
}

/// What a choice comes to that may have been left open.
pub open spec fn or_default<T>(choice: Option<T>, default: T) -> T {
    match choice {
        Some(made) => made,
        None => default,
    }
}

pub open spec fn texts(strings: Seq<String>) -> Seq<Seq<char>> {
    strings.map_values(|string: String| string@)
}

/// The texts of a list that may be missing.
pub open spec fn listed(strings: Option<Vec<String>>) -> Seq<Seq<char>> {
    match strings {
        Some(strings) => texts(strings@),
        None => Seq::empty(),
    }
}

pub open spec fn handler_texts(handlers: Seq<EventHandler>) -> Seq<Seq<char>> {
    handlers.map_values(|handler: EventHandler| handler@)
}

/// Whether `config` is what `file` comes to.
pub open spec fn is_config_of(config: EventObserverConfig, file: EventObserverConfigFile) -> bool {
    &&& config.normalization_enabled == or_default(file.normalization_enabled, true)
    &&& config.grpc_server_enabled == or_default(file.grpc_server_enabled, false)
    &&& config.hooks_enabled == or_default(file.hooks_enabled, false)
    &&& config.bitcoin_rpc_proxy_enabled == or_default(file.bitcoin_rpc_proxy_enabled, false)
    &&& handler_texts(config.event_handlers@) == listed(file.webhooks)
    &&& config.chainhook_config matches Some(hooks)
    &&& hooks.stacks_chainhooks@.len() == 0 && hooks.bitcoin_chainhooks@.len() == 0
    &&& config.ingestion_port == or_default(file.ingestion_port, DEFAULT_INGESTION_PORT)
    &&& config.control_port == or_default(file.control_port, DEFAULT_CONTROL_PORT)
    &&& config.bitcoin_node_username@ == file.bitcoin_node_username@
    &&& config.bitcoin_node_password@ == file.bitcoin_node_password@
    &&& config.bitcoin_node_rpc_url@ == file.bitcoin_node_rpc_url@
    &&& config.stacks_node_rpc_url@ == file.stacks_node_rpc_url@
    &&& config.operators@ == listed(file.operators).to_set()
    &&& config.display_logs
    &&& config.cache_path@ == match file.cache_path {
        Some(path) => path@,
        None => "cache"@,
    }
}

fn handlers_of(webhooks: &Vec<String>) -> (handlers: Vec<EventHandler>)
    ensures
        handler_texts(handlers@) == texts(webhooks@),
{
    let mut handlers: Vec<EventHandler> = Vec::new();
    let mut i: usize = 0;
    while i < webhooks.len()
        invariant
            i <= webhooks@.len(),
            handler_texts(handlers@) =~= texts(webhooks@).take(i as int),
        decreases webhooks@.len() - i,
    {
        let ghost before = handlers@;
        handlers.push(EventHandler::WebHook(webhooks[i].clone()));
        assert(handler_texts(handlers@) =~= handler_texts(before).push(webhooks@[i as int]@));
        i = i + 1;
    }
    handlers
}

fn set_of(keys: &Vec<String>) -> (set: StringHashSet)
    ensures
        set@ == texts(keys@).to_set(),
{
    let mut set = StringHashSet::new();
    let mut i: usize = 0;
    assert(texts(keys@).take(0).to_set() =~= Set::empty());
    while i < keys.len()
        invariant
            i <= keys@.len(),
            set@ == texts(keys@).take(i as int).to_set(),
        decreases keys@.len() - i,
    {
        set.insert(keys[i].clone());
        proof {
            let now = texts(keys@).take(i + 1);
            let before = texts(keys@).take(i as int);
            assert(now =~= before.push(keys@[i as int]@));
            assert(now.to_set() =~= before.to_set().insert(keys@[i as int]@)) by {
                assert forall|text: Seq<char>|
                    now.contains(text) <==> before.contains(text) || text == keys@[i as int]@ by {
                    if before.contains(text) {
                        let k = choose|k: int| 0 <= k < before.len() && before[k] == text;
                        assert(now[k] == text);
                    }
                    if text == keys@[i as int]@ {
                        assert(now[i as int] == text);
                    }
                    if now.contains(text) {
                        let k = choose|k: int| 0 <= k < now.len() && now[k] == text;
                        if k < i {
                            assert(before[k] == text);
                        }
                    }
                }
            }
        }
        i = i + 1;
    }
    assert(texts(keys@).take(i as int) =~= texts(keys@));
    set
}

impl EventObserverConfig {
    /// The configuration that a file comes to: what it leaves open gets a default.
    pub fn from_config_file(config_file: EventObserverConfigFile) -> (config: EventObserverConfig)
        ensures
            is_config_of(config, config_file),
    {
        let event_handlers: Vec<EventHandler> = match &config_file.webhooks {
            Some(webhooks) => handlers_of(webhooks),
            None => Vec::new(),
        };
        assert(handler_texts(event_handlers@) =~= listed(config_file.webhooks));
        let operators: StringHashSet = match &config_file.operators {
            Some(operator_keys) => set_of(operator_keys),
            None => StringHashSet::new(),
        };
        assert(operators@ =~= listed(config_file.operators).to_set());
        let cache_path: String = match &config_file.cache_path {
            Some(path) => path.clone(),
            None => "cache".to_owned(),
        };
        EventObserverConfig {
            normalization_enabled: config_file.normalization_enabled.unwrap_or(true),
            grpc_server_enabled: config_file.grpc_server_enabled.unwrap_or(false),
            hooks_enabled: config_file.hooks_enabled.unwrap_or(false),
            bitcoin_rpc_proxy_enabled: config_file.bitcoin_rpc_proxy_enabled.unwrap_or(false),
            event_handlers,
            chainhook_config: Some(ChainhookConfig::new()),
            ingestion_port: config_file.ingestion_port.unwrap_or(DEFAULT_INGESTION_PORT),
            control_port: config_file.control_port.unwrap_or(DEFAULT_CONTROL_PORT),
            bitcoin_node_username: config_file.bitcoin_node_username,
            bitcoin_node_password: config_file.bitcoin_node_password,
            bitcoin_node_rpc_url: config_file.bitcoin_node_rpc_url,
            stacks_node_rpc_url: config_file.stacks_node_rpc_url,
            operators,
            display_logs: true,
            cache_path,
        }
    }
}

/// Where the configuration is taken from.
#[derive(Debug)]
pub enum ConfigLocation {
    /// The path that was given.
    Given,
    /// The file in the directory so many levels above the current one.
    Ancestor(usize),
    /// There is none.
    NotFound,
}

/// The nearest level from `from` on with a file.
pub open spec fn nearest(has_file: Seq<bool>, from: nat) -> ConfigLocation
    decreases has_file.len() - from,
{
    if from >= has_file.len() {
        ConfigLocation::NotFound
    } else if has_file[from as int] {
        ConfigLocation::Ancestor(from as usize)
    } else {
        nearest(has_file, from + 1)
    }
}

/// Where the configuration is: at the given path, and nowhere else, if one is
/// given, else in the nearest of the current directory and those above it.
/// The arguments say whether the given path exists, and for each directory,
/// from the current one up, whether it has a configuration file.
pub fn locate_config(given_exists: Option<bool>, has_file: &Vec<bool>) -> (location: ConfigLocation)
    ensures
        location == match given_exists {
            Some(true) => ConfigLocation::Given,
            Some(false) => ConfigLocation::NotFound,
            None => nearest(has_file@, 0),
        },
{
    match given_exists {
        Some(exists) => if exists {
            ConfigLocation::Given
        } else {
            ConfigLocation::NotFound
        },
        None => {
            let mut level: usize = 0;
            while level < has_file.len()
                invariant
                    level <= has_file@.len(),
                    given_exists is None,
                    nearest(has_file@, 0) == nearest(has_file@, level as nat),
                decreases has_file@.len() - level,
            {
                if has_file[level] {
                    return ConfigLocation::Ancestor(level);
                }
                level = level + 1;
            }
            ConfigLocation::NotFound
        },
    }
}

/// A file that is found is the nearest there is, and one is found if there is any.
pub proof fn law_nearest_config_wins(has_file: Seq<bool>, from: nat, level: nat)
    requires
        from <= level < has_file.len() <= usize::MAX,
        has_file[level as int],
    ensures
        nearest(has_file, from) matches ConfigLocation::Ancestor(found) && from <= found <= level
            && has_file[found as int],
    decreases level - from,
{
    if !has_file[from as int] {
        law_nearest_config_wins(has_file, from + 1, level);
    }
}

/// A choice that the file makes is kept, whatever it is.
pub proof fn law_choices_are_kept(config: EventObserverConfig, file: EventObserverConfigFile)
    requires
        is_config_of(config, file),
    ensures
        file.normalization_enabled matches Some(choice) ==> config.normalization_enabled == choice,
        file.grpc_server_enabled matches Some(choice) ==> config.grpc_server_enabled == choice,
        file.hooks_enabled matches Some(choice) ==> config.hooks_enabled == choice,
        file.bitcoin_rpc_proxy_enabled matches Some(choice) ==> config.bitcoin_rpc_proxy_enabled
            == choice,
        file.ingestion_port matches Some(port) ==> config.ingestion_port == port,
        file.control_port matches Some(port) ==> config.control_port == port,
        file.cache_path matches Some(path) ==> config.cache_path@ == path@,
        config.bitcoin_node_username@ == file.bitcoin_node_username@,
        config.bitcoin_node_password@ == file.bitcoin_node_password@,
        config.bitcoin_node_rpc_url@ == file.bitcoin_node_rpc_url@,
        config.stacks_node_rpc_url@ == file.stacks_node_rpc_url@,
{
}

/// A choice that the file leaves open gets its default, whatever the others are.
pub proof fn law_open_choices_get_defaults(
    config: EventObserverConfig,
    file: EventObserverConfigFile,
)
    requires
        is_config_of(config, file),
    ensures
        file.normalization_enabled is None ==> config.normalization_enabled,
        file.grpc_server_enabled is None ==> !config.grpc_server_enabled,
        file.hooks_enabled is None ==> !config.hooks_enabled,
        file.bitcoin_rpc_proxy_enabled is None ==> !config.bitcoin_rpc_proxy_enabled,
        file.ingestion_port is None ==> config.ingestion_port == 20455,
        file.control_port is None ==> config.control_port == 20456,
        file.cache_path is None ==> config.cache_path@ == "cache"@,
        file.webhooks is None ==> config.event_handlers@.len() == 0,
        file.operators is None ==> config.operators@ == Set::<Seq<char>>::empty(),
        config.display_logs,
        config.chainhook_config matches Some(hooks) && hooks.stacks_chainhooks@.len() == 0
            && hooks.bitcoin_chainhooks@.len() == 0,
{
    if file.operators is None {
        assert(config.operators@ =~= Set::<Seq<char>>::empty());
    }
    if file.webhooks is None {
        assert(handler_texts(config.event_handlers@).len() == 0);
    }
}

/// Every address gets its handler, in the order of the addresses.
pub proof fn law_every_address_gets_a_handler(
    config: EventObserverConfig,
    file: EventObserverConfigFile,
    k: int,
)
    requires
        is_config_of(config, file),
        file.webhooks is Some,
        0 <= k < file.webhooks->0@.len(),
    ensures
        config.event_handlers@.len() == file.webhooks->0@.len(),
        config.event_handlers@[k] matches EventHandler::WebHook(address) && address@
            == file.webhooks->0@[k]@,
{
    let handlers = config.event_handlers@;
    assert(handler_texts(handlers).len() == listed(file.webhooks).len());
    assert(handler_texts(handlers)[k] == listed(file.webhooks)[k]);
}

/// The operators are those that are listed, and no others.
pub proof fn law_operators_are_those_listed(
    config: EventObserverConfig,
    file: EventObserverConfigFile,
    key: Seq<char>,
)
    requires
        is_config_of(config, file),
        file.operators is Some,
    ensures
        config.operators@.contains(key) <==> exists|k: int|
            0 <= k < file.operators->0@.len() && #[trigger] file.operators->0@[k]@ == key,
{
    let keys = listed(file.operators);
    assert(config.operators@.contains(key) <==> keys.contains(key));
    assert forall|k: int| 0 <= k < keys.len() implies keys[k]
        == #[trigger] file.operators->0@[k]@ by {
    }
    if keys.contains(key) {
        let k = choose|k: int| 0 <= k < keys.len() && keys[k] == key;
        assert(file.operators->0@[k]@ == key);
    }
    if exists|k: int|
        0 <= k < file.operators->0@.len() && #[trigger] file.operators->0@[k]@ == key {
        let k = choose|k: int|
            0 <= k < file.operators->0@.len() && #[trigger] file.operators->0@[k]@ == key;
        assert(keys[k] == key);
    }
}

/// Without a file on any level, none is found.
pub proof fn law_no_config_is_found_where_there_is_none(has_file: Seq<bool>, from: nat)
    requires
        forall|level: int| from <= level < has_file.len() ==> !#[trigger] has_file[level],
    ensures
        nearest(has_file, from) is NotFound,
    decreases has_file.len() - from,
{
    if from < has_file.len() {
        law_no_config_is_found_where_there_is_none(has_file, from + 1);
    }
}

/// What a file comes to has the choices that the file makes, and defaults for the others.
pub proof fn law_config_of_a_file(file: EventObserverConfigFile, config: EventObserverConfig)
    requires
        call_ensures(EventObserverConfig::from_config_file, (file,), config),
    ensures
        file.ingestion_port matches Some(port) ==> config.ingestion_port == port,
        file.ingestion_port is None ==> config.ingestion_port == 20455,
        file.control_port matches Some(port) ==> config.control_port == port,
        file.control_port is None ==> config.control_port == 20456,
        file.webhooks matches Some(webhooks) ==> config.event_handlers@.len() == webhooks@.len(),
        file.webhooks is None ==> config.event_handlers@.len() == 0,
{
    law_choices_are_kept(config, file);
    law_open_choices_get_defaults(config, file);
    if file.webhooks is Some {
        assert(handler_texts(config.event_handlers@).len() == listed(file.webhooks).len());
    }
}

} // verus!
