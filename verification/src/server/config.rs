//! The server's settings.
use crate::server::error::{ServerError, ServerErrorView};
use crate::text;
use crate::text::{chars_of, equal_but_case, join_text, parse_number, NumberFault};
use vstd::prelude::*;
use vstd::string::*;

verus! {

pub const DEFAULT_MAX_CONNECTIONS: usize = 1024;

pub const DEFAULT_MAX_IN_FLIGHT_REQUESTS: usize = 256;

pub const DEFAULT_MAX_FRAME_BYTES: usize = 0x10_0000;

pub const DEFAULT_IDLE_TIMEOUT_SECS: u64 = 300;

pub const DEFAULT_SHUTDOWN_GRACE_SECS: u64 = 5;

/// The largest request frame that may be allowed.
pub const LARGEST_FRAME_LIMIT: usize = 0x400_0000;

/// The server's settings. Addresses are kept as text, times in seconds.
#[derive(Debug, PartialEq, Eq)]
pub struct ServerConfig {
    pub listen_address: String,
    /// Where the PostgreSQL protocol listens; None disables it.
    pub pg_listen_address: Option<String>,
    pub data_directory: String,
    pub max_connections: usize,
    pub max_in_flight_requests: usize,
    pub max_frame_bytes: usize,
    pub idle_timeout: u64,
    pub shutdown_grace: u64,
}

#[verifier::ext_equal]
pub struct ConfigView {
    pub listen_address: Seq<char>,
    pub pg_listen_address: Option<Seq<char>>,
    pub data_directory: Seq<char>,
    pub max_connections: usize,
    pub max_in_flight_requests: usize,
    pub max_frame_bytes: usize,
    pub idle_timeout: u64,
    pub shutdown_grace: u64,
}

pub open spec fn text_view(text: Option<String>) -> Option<Seq<char>> {
    match text {
        Some(text) => Some(text@),
        None => None,
    }
}

impl View for ServerConfig {
    type V = ConfigView;

    open spec fn view(&self) -> ConfigView {
        ConfigView {
            listen_address: self.listen_address@,
            pg_listen_address: text_view(self.pg_listen_address),
            data_directory: self.data_directory@,
            max_connections: self.max_connections,
            max_in_flight_requests: self.max_in_flight_requests,
            max_frame_bytes: self.max_frame_bytes,
            idle_timeout: self.idle_timeout,
            shutdown_grace: self.shutdown_grace,
        }
    }
}

pub open spec fn default_config() -> ConfigView {
    ConfigView {
        listen_address: "127.0.0.1:54321"@,
        pg_listen_address: Some("127.0.0.1:55432"@),
        data_directory: "quantadb-data"@,
        max_connections: DEFAULT_MAX_CONNECTIONS,
        max_in_flight_requests: DEFAULT_MAX_IN_FLIGHT_REQUESTS,
        max_frame_bytes: DEFAULT_MAX_FRAME_BYTES,
        idle_timeout: DEFAULT_IDLE_TIMEOUT_SECS,
        shutdown_grace: DEFAULT_SHUTDOWN_GRACE_SECS,
    }
}

impl Default for ServerConfig {
    fn default() -> (config: Self)
        ensures
            config@ == default_config(),
    {
        ServerConfig {
            listen_address: String::from_str("127.0.0.1:54321"),
            pg_listen_address: Some(String::from_str("127.0.0.1:55432")),
            data_directory: String::from_str("quantadb-data"),
            max_connections: DEFAULT_MAX_CONNECTIONS,
            max_in_flight_requests: DEFAULT_MAX_IN_FLIGHT_REQUESTS,
            max_frame_bytes: DEFAULT_MAX_FRAME_BYTES,
            idle_timeout: DEFAULT_IDLE_TIMEOUT_SECS,
            shutdown_grace: DEFAULT_SHUTDOWN_GRACE_SECS,
        }
    }
}

/// What an environment variable holds.
#[derive(Debug)]
pub enum Setting {
    Absent,
    NotUnicode,
    Text(String),
}

/// What an environment variable for an address holds, and what is wrong with it as an address.
#[derive(Debug)]
pub struct AddressSetting {
    pub setting: Setting,
    pub fault: Option<String>,
}

/// What the environment variables hold.
#[derive(Debug)]
pub struct Settings {
    pub listen_address: AddressSetting,
    pub pg_listen_address: AddressSetting,
    pub data_directory: Setting,
    pub max_connections: Setting,
    pub max_in_flight_requests: Setting,
    pub max_frame_bytes: Setting,
    pub idle_timeout: Setting,
    pub shutdown_grace: Setting,
}

pub open spec fn configuration(detail: Seq<char>) -> ServerErrorView {
    ServerErrorView::Configuration(detail)
}

/// The text of an environment variable, if there is one.
pub open spec fn setting_text(name: Seq<char>, setting: Setting) -> Result<
    Option<Seq<char>>,
    ServerErrorView,
> {
    match setting {
        Setting::Absent => Ok(None),
        Setting::NotUnicode => Err(configuration(name + " contains non-Unicode data"@ + ""@)),
        Setting::Text(value) => Ok(Some(value@)),
    }
}

pub open spec fn fault_text(fault: NumberFault) -> Seq<char> {
    match fault {
        NumberFault::Empty => "cannot parse integer from empty string"@,
        NumberFault::InvalidDigit => "invalid digit found in string"@,
        NumberFault::TooLarge => "number too large to fit in target type"@,
    }
}

/// The number in an environment variable, or the one that stands without it.
pub open spec fn setting_number(
    name: Seq<char>,
    setting: Setting,
    otherwise: u64,
    largest: u64,
) -> Result<u64, ServerErrorView> {
    match setting_text(name, setting) {
        Err(error) => Err(error),
        Ok(None) => Ok(otherwise),
        Ok(Some(value)) => match text::parsed_number(value, largest as nat) {
            Ok(number) => Ok(number as u64),
            Err(fault) => Err(
                configuration(name + " must be a positive integer: "@ + fault_text(fault)),
            ),
        },
    }
}

/// The listening address.
pub open spec fn listen_setting(address: AddressSetting, otherwise: Seq<char>) -> Result<
    Seq<char>,
    ServerErrorView,
> {
    match setting_text("QUANTA_LISTEN_ADDRESS"@, address.setting) {
        Err(error) => Err(error),
        Ok(None) => Ok(otherwise),
        Ok(Some(value)) => match address.fault {
            None => Ok(value),
            Some(fault) => Err(
                configuration(
                    "QUANTA_LISTEN_ADDRESS must be an IP socket address: "@ + fault@ + ""@,
                ),
            ),
        },
    }
}

/// The listening address of the PostgreSQL protocol: the word "off" stands for none.
pub open spec fn pg_setting(address: AddressSetting, otherwise: Option<Seq<char>>) -> Result<
    Option<Seq<char>>,
    ServerErrorView,
> {
    match setting_text("QUANTA_PG_LISTEN_ADDRESS"@, address.setting) {
        Err(error) => Err(error),
        Ok(None) => Ok(otherwise),
        Ok(Some(value)) => if text::same_but_case(value, "off"@) {
            Ok(None)
        } else {
            match address.fault {
                None => Ok(Some(value)),
                Some(fault) => Err(
                    configuration(
                        "QUANTA_PG_LISTEN_ADDRESS must be an IP socket address or \"off\": "@
                            + fault@ + ""@,
                    ),
                ),
            }
        },
    }
}

/// The data directory.
pub open spec fn directory_setting(setting: Setting, otherwise: Seq<char>) -> Result<
    Seq<char>,
    ServerErrorView,
> {
    match setting_text("QUANTA_DATA_DIR"@, setting) {
        Err(error) => Err(error),
        Ok(None) => Ok(otherwise),
        Ok(Some(value)) => Ok(value),
    }
}

/// Why settings cannot be used, if they cannot.
pub open spec fn config_refused(config: ConfigView) -> Option<ServerErrorView> {
    if config.max_connections == 0 {
        Some(configuration("max_connections must be greater than zero"@))
    } else if config.data_directory.len() == 0 {
        Some(configuration("data_directory cannot be empty"@))
    } else if config.max_in_flight_requests == 0 {
        Some(configuration("max_in_flight_requests must be greater than zero"@))
    } else if !(256 <= config.max_frame_bytes <= LARGEST_FRAME_LIMIT) {
        Some(configuration("max_frame_bytes must be between 256 bytes and 64 MiB"@))
    } else if config.idle_timeout == 0 {
        Some(configuration("idle_timeout must be greater than zero"@))
    } else if config.shutdown_grace == 0 {
        Some(configuration("shutdown_grace must be greater than zero"@))
    } else {
        None
    }
}

/// The settings that environment variables give, before they are looked at as a whole: the first
/// variable with a fault decides.
pub open spec fn read_settings(settings: Settings) -> Result<ConfigView, ServerErrorView> {
    let plain = default_config();
    match listen_setting(settings.listen_address, plain.listen_address) {
        Err(error) => Err(error),
        Ok(listen_address) => match pg_setting(
            settings.pg_listen_address,
            plain.pg_listen_address,
        ) {
            Err(error) => Err(error),
            Ok(pg_listen_address) => match directory_setting(
                settings.data_directory,
                plain.data_directory,
            ) {
                Err(error) => Err(error),
                Ok(data_directory) => read_limits(
                    settings,
                    ConfigView { listen_address, pg_listen_address, data_directory, ..plain },
                ),
            },
        },
    }
}

/// The limits among the settings.
pub open spec fn read_limits(settings: Settings, config: ConfigView) -> Result<
    ConfigView,
    ServerErrorView,
> {
    match setting_number(
        "QUANTA_MAX_CONNECTIONS"@,
        settings.max_connections,
        config.max_connections as u64,
        usize::MAX as u64,
    ) {
        Err(error) => Err(error),
        Ok(max_connections) => match setting_number(
            "QUANTA_MAX_IN_FLIGHT_REQUESTS"@,
            settings.max_in_flight_requests,
            config.max_in_flight_requests as u64,
            usize::MAX as u64,
        ) {
            Err(error) => Err(error),
            Ok(max_in_flight_requests) => match setting_number(
                "QUANTA_MAX_FRAME_BYTES"@,
                settings.max_frame_bytes,
                config.max_frame_bytes as u64,
                usize::MAX as u64,
            ) {
                Err(error) => Err(error),
                Ok(max_frame_bytes) => match setting_number(
                    "QUANTA_IDLE_TIMEOUT_SECS"@,
                    settings.idle_timeout,
                    config.idle_timeout,
                    u64::MAX,
                ) {
                    Err(error) => Err(error),
                    Ok(idle_timeout) => match setting_number(
                        "QUANTA_SHUTDOWN_GRACE_SECS"@,
                        settings.shutdown_grace,
                        config.shutdown_grace,
                        u64::MAX,
                    ) {
                        Err(error) => Err(error),
                        Ok(shutdown_grace) => Ok(
                            ConfigView {
                                max_connections: max_connections as usize,
                                max_in_flight_requests: max_in_flight_requests as usize,
                                max_frame_bytes: max_frame_bytes as usize,
                                idle_timeout,
                                shutdown_grace,
                                ..config
                            },
                        ),
                    },
                },
            },
        },
    }
}

/// The settings that environment variables give.
pub open spec fn configured(settings: Settings) -> Result<ConfigView, ServerErrorView> {
    match read_settings(settings) {
        Err(error) => Err(error),
        Ok(config) => match config_refused(config) {
            Some(refusal) => Err(refusal),
            None => Ok(config),
        },
    }
}

fn refusal(detail: &str) -> (error: ServerError)
    ensures
        error@ == configuration(detail@),
{
    ServerError::Configuration(String::from_str(detail))
}

fn read_env<'a>(name: &str, setting: &'a Setting) -> (value: Result<Option<&'a String>, ServerError>)
    ensures
        match value {
            Ok(None) => setting_text(name@, *setting) == Ok::<Option<Seq<char>>, ServerErrorView>(
                None,
            ),
            Ok(Some(value)) => setting_text(name@, *setting) == Ok::<
                Option<Seq<char>>,
                ServerErrorView,
            >(Some(value@)),
            Err(error) => setting_text(name@, *setting) == Err::<
                Option<Seq<char>>,
                ServerErrorView,
            >(error@),
        },
{
    match setting {
        Setting::Absent => Ok(None),
        Setting::NotUnicode => Err(
            ServerError::Configuration(join_text(name, " contains non-Unicode data", "")),
        ),
        Setting::Text(value) => Ok(Some(value)),
    }
}

fn read_number(name: &str, setting: &Setting, otherwise: u64, largest: u64) -> (number: Result<
    u64,
    ServerError,
>)
    requires
        otherwise <= largest,
    ensures
        match number {
            Ok(number) => setting_number(name@, *setting, otherwise, largest) == Ok::<
                u64,
                ServerErrorView,
            >(number) && number <= largest,
            Err(error) => setting_number(name@, *setting, otherwise, largest) == Err::<
                u64,
                ServerErrorView,
            >(error@),
        },
{
    let value = match read_env(name, setting) {
        Err(error) => {
            return Err(error);
        },
        Ok(None) => {
            return Ok(otherwise);
        },
        Ok(Some(value)) => value,
    };
    let chars = chars_of(value.as_str());
    assert(chars@.subrange(0, chars@.len() as int) =~= value@);
    match parse_number(&chars, 0, chars.len(), largest) {
        Ok(number) => Ok(number),
        Err(fault) => {
            let cause = match fault {
                NumberFault::Empty => "cannot parse integer from empty string",
                NumberFault::InvalidDigit => "invalid digit found in string",
                NumberFault::TooLarge => "number too large to fit in target type",
            };
            Err(ServerError::Configuration(join_text(name, " must be a positive integer: ", cause)))
        },
    }
}

impl ServerConfig {
    /// Whether the settings can be used.
    pub fn validate(&self) -> (result: Result<(), ServerError>)
        ensures
            match result {
                Ok(_) => config_refused(self@) is None,
                Err(error) => config_refused(self@) == Some(error@),
            },
    {
        if self.max_connections == 0 {
            return Err(refusal("max_connections must be greater than zero"));
        }
        if self.data_directory.as_str().unicode_len() == 0 {
            return Err(refusal("data_directory cannot be empty"));
        }
        if self.max_in_flight_requests == 0 {
            return Err(refusal("max_in_flight_requests must be greater than zero"));
        }
        if self.max_frame_bytes < 256 || self.max_frame_bytes > LARGEST_FRAME_LIMIT {
            return Err(refusal("max_frame_bytes must be between 256 bytes and 64 MiB"));
        }
        if self.idle_timeout == 0 {
            return Err(refusal("idle_timeout must be greater than zero"));
        }
        if self.shutdown_grace == 0 {
            return Err(refusal("shutdown_grace must be greater than zero"));
        }
        Ok(())
    }

    fn read_addresses(&mut self, settings: &Settings) -> (result: Result<(), ServerError>)
        ensures
            match result {
                Ok(_) => {
                    &&& listen_setting(settings.listen_address, old(self)@.listen_address) == Ok::<
                        Seq<char>,
                        ServerErrorView,
                    >(final(self)@.listen_address)
                    &&& pg_setting(
                        settings.pg_listen_address,
                        old(self)@.pg_listen_address,
                    ) == Ok::<Option<Seq<char>>, ServerErrorView>(final(self)@.pg_listen_address)
                    &&& final(self)@ == (ConfigView {
                        listen_address: final(self)@.listen_address,
                        pg_listen_address: final(self)@.pg_listen_address,
                        ..old(self)@
                    })
                },
                Err(error) => {
                    ||| listen_setting(
                        settings.listen_address,
                        old(self)@.listen_address,
                    ) == Err::<Seq<char>, ServerErrorView>(error@)
                    ||| listen_setting(settings.listen_address, old(self)@.listen_address) is Ok
                        && pg_setting(
                        settings.pg_listen_address,
                        old(self)@.pg_listen_address,
                    ) == Err::<Option<Seq<char>>, ServerErrorView>(error@)
                },
            },
    {
        match read_env("QUANTA_LISTEN_ADDRESS", &settings.listen_address.setting) {
            Err(error) => {
                return Err(error);
            },
            Ok(None) => {},
            Ok(Some(value)) => {
                if let Some(fault) = &settings.listen_address.fault {
                    return Err(
                        ServerError::Configuration(
                            join_text(
                                "QUANTA_LISTEN_ADDRESS must be an IP socket address: ",
                                fault.as_str(),
                                "",
                            ),
                        ),
                    );
                }
                self.listen_address = value.clone();
            },
        }
        match read_env("QUANTA_PG_LISTEN_ADDRESS", &settings.pg_listen_address.setting) {
            Err(error) => {
                return Err(error);
            },
            Ok(None) => {},
            Ok(Some(value)) => {
                let chars = chars_of(value.as_str());
                assert(chars@.subrange(0, chars@.len() as int) =~= value@);
                if equal_but_case(&chars, 0, chars.len(), "off") {
                    self.pg_listen_address = None;
                } else {
                    if let Some(fault) = &settings.pg_listen_address.fault {
                        return Err(
                            ServerError::Configuration(
                                join_text(
                                    "QUANTA_PG_LISTEN_ADDRESS must be an IP socket address or \"off\": ",
                                    fault.as_str(),
                                    "",
                                ),
                            ),
                        );
                    }
                    self.pg_listen_address = Some(value.clone());
                }
            },
        }
        Ok(())
    }

    fn read_limits(&mut self, settings: &Settings) -> (result: Result<(), ServerError>)
        ensures
            match result {
                Ok(_) => read_limits(*settings, old(self)@) == Ok::<ConfigView, ServerErrorView>(
                    final(self)@,
                ),
                Err(error) => read_limits(*settings, old(self)@) == Err::<
                    ConfigView,
                    ServerErrorView,
                >(error@),
            },
    {
        match read_number(
            "QUANTA_MAX_CONNECTIONS",
            &settings.max_connections,
            self.max_connections as u64,
            usize::MAX as u64,
        ) {
            Err(error) => {
                return Err(error);
            },
            Ok(number) => {
                self.max_connections = number as usize;
            },
        }
        match read_number(
            "QUANTA_MAX_IN_FLIGHT_REQUESTS",
            &settings.max_in_flight_requests,
            self.max_in_flight_requests as u64,
            usize::MAX as u64,
        ) {
            Err(error) => {
                return Err(error);
            },
            Ok(number) => {
                self.max_in_flight_requests = number as usize;
            },
        }
        match read_number(
            "QUANTA_MAX_FRAME_BYTES",
            &settings.max_frame_bytes,
            self.max_frame_bytes as u64,
            usize::MAX as u64,
        ) {
            Err(error) => {
                return Err(error);
            },
            Ok(number) => {
                self.max_frame_bytes = number as usize;
            },
        }
        match read_number(
            "QUANTA_IDLE_TIMEOUT_SECS",
            &settings.idle_timeout,
            self.idle_timeout,
            u64::MAX,
        ) {
            Err(error) => {
                return Err(error);
            },
            Ok(number) => {
                self.idle_timeout = number;
            },
        }
        match read_number(
            "QUANTA_SHUTDOWN_GRACE_SECS",
            &settings.shutdown_grace,
            self.shutdown_grace,
            u64::MAX,
        ) {
            Err(error) => {
                return Err(error);
            },
            Ok(number) => {
                self.shutdown_grace = number;
            },
        }
        Ok(())
    }

    /// The settings that environment variables give.
    pub fn from_env(settings: &Settings) -> (result: Result<ServerConfig, ServerError>)
        ensures
            match result {
                Ok(config) => configured(*settings) == Ok::<ConfigView, ServerErrorView>(config@),
                Err(error) => configured(*settings) == Err::<ConfigView, ServerErrorView>(error@),
            },
    {
        let mut config = ServerConfig::default();
        match config.read_addresses(settings) {
            Err(error) => {
                return Err(error);
            },
            Ok(_) => {},
        }
        match read_env("QUANTA_DATA_DIR", &settings.data_directory) {
            Err(error) => {
                return Err(error);
            },
            Ok(None) => {},
            Ok(Some(value)) => {
                config.data_directory = value.clone();
            },
        }
        match config.read_limits(settings) {
            Err(error) => {
                return Err(error);
            },
            Ok(_) => {},
        }
        match config.validate() {
            Err(error) => Err(error),
            Ok(_) => Ok(config),
        }
    }
}

/// Whether a number is what an environment variable sets: the number in it, or without the variable the
/// one that stands otherwise.
pub open spec fn is_set(setting: Setting, otherwise: int, number: int) -> bool {
    match setting {
        Setting::Absent => number == otherwise,
        Setting::NotUnicode => false,
        Setting::Text(value) => forall|n: nat| value@ == #[trigger] text::decimal(n) ==> number == n,
    }
}

proof fn lemma_setting_number(name: Seq<char>, setting: Setting, otherwise: u64, largest: u64)
    ensures
        setting_number(name, setting, otherwise, largest) matches Ok(number) ==> is_set(
            setting,
            otherwise as int,
            number as int,
        ) && (otherwise <= largest ==> number <= largest),
{
    if let Setting::Text(value) = setting {
        if let Ok(number) = setting_number(name, setting, otherwise, largest) {
            assert forall|n: nat| value@ == #[trigger] text::decimal(n) implies number == n by {
                text::law_decimal_reads_back(n, largest as nat);
            }
            let digits = text::unsigned_digits(value@);
            assert(digits.take(digits.len() as int) =~= digits);
        }
    }
}

/// Each limit is what its own environment variable sets, and without it the documented one.
pub proof fn law_limits_come_from_their_variables(settings: Settings, config: ConfigView)
    requires
        configured(settings) == Ok::<ConfigView, ServerErrorView>(config),
    ensures
        is_set(settings.max_connections, 1_024, config.max_connections as int),
        is_set(settings.max_in_flight_requests, 256, config.max_in_flight_requests as int),
        is_set(settings.max_frame_bytes, 1_048_576, config.max_frame_bytes as int),
        is_set(settings.idle_timeout, 300, config.idle_timeout as int),
        is_set(settings.shutdown_grace, 5, config.shutdown_grace as int),
{
    let plain = default_config();
    lemma_setting_number(
        "QUANTA_MAX_CONNECTIONS"@,
        settings.max_connections,
        plain.max_connections as u64,
        usize::MAX as u64,
    );
    lemma_setting_number(
        "QUANTA_MAX_IN_FLIGHT_REQUESTS"@,
        settings.max_in_flight_requests,
        plain.max_in_flight_requests as u64,
        usize::MAX as u64,
    );
    lemma_setting_number(
        "QUANTA_MAX_FRAME_BYTES"@,
        settings.max_frame_bytes,
        plain.max_frame_bytes as u64,
        usize::MAX as u64,
    );
    lemma_setting_number(
        "QUANTA_IDLE_TIMEOUT_SECS"@,
        settings.idle_timeout,
        plain.idle_timeout,
        u64::MAX,
    );
    lemma_setting_number(
        "QUANTA_SHUTDOWN_GRACE_SECS"@,
        settings.shutdown_grace,
        plain.shutdown_grace,
        u64::MAX,
    );
}

/// Whether a text is what an environment variable sets.
pub open spec fn is_text_set(setting: Setting, otherwise: Seq<char>, value: Seq<char>) -> bool {
    match setting {
        Setting::Absent => value == otherwise,
        Setting::NotUnicode => false,
        Setting::Text(given) => value == given@,
    }
}

/// The addresses and the directory are what their own environment variables set; the PostgreSQL protocol
/// has no address where its variable says off, in any case of the letters.
pub proof fn law_places_come_from_their_variables(settings: Settings, config: ConfigView)
    requires
        configured(settings) == Ok::<ConfigView, ServerErrorView>(config),
    ensures
        is_text_set(
            settings.listen_address.setting,
            "127.0.0.1:54321"@,
            config.listen_address,
        ),
        is_text_set(settings.data_directory, "quantadb-data"@, config.data_directory),
        config.pg_listen_address matches Some(address) ==> is_text_set(
            settings.pg_listen_address.setting,
            "127.0.0.1:55432"@,
            address,
        ),
        config.pg_listen_address is None <==> (settings.pg_listen_address.setting matches
            Setting::Text(value) && text::same_but_case(value@, "off"@)),
{
}

/// Settings are accepted exactly where every limit is more than zero, the directory is named, and a frame
/// may have from 256 bytes to 64 MiB.
pub proof fn law_sound_settings_are_accepted(config: ConfigView)
    ensures
        config_refused(config) is None <==> {
            &&& config.max_connections > 0
            &&& config.max_in_flight_requests > 0
            &&& config.idle_timeout > 0
            &&& config.shutdown_grace > 0
            &&& config.data_directory != Seq::<char>::empty()
            &&& 256 <= config.max_frame_bytes <= 64 * 1024 * 1024
        },
{
    assert(config.data_directory.len() == 0 <==> config.data_directory =~= Seq::<char>::empty());
}

} // verus!
