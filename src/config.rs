//! The controller's settings, and the names and groups that configuration refers to.
use vstd::prelude::*;
use crate::text::{chars_of, string_of};

verus! {

pub struct ServerConfig {
    /// Port of the interception endpoint, never zero.
    pub port: u16,
}

pub struct ControllerConfig {
    /// Idle time, in seconds, after which the targets are put to sleep.
    pub sleepiness_duration: u64,
    /// Seconds between two activity checks, never zero.
    pub refresh_interval: u32,
}

pub struct Config {
    pub server: ServerConfig,
    pub controller: ControllerConfig,
}

impl Default for ServerConfig {
    fn default() -> (r: ServerConfig)
        ensures
            r.port == 8000,
    {
        ServerConfig { port: 8000 }
    }
}

impl Default for ControllerConfig {
    fn default() -> (r: ControllerConfig)
        ensures
            r.sleepiness_duration == 15,
            r.refresh_interval == 5,
    {
        ControllerConfig { sleepiness_duration: 15, refresh_interval: 5 }
    }
}

impl Default for Config {
    fn default() -> (r: Config)
        ensures
            r.server.port == 8000,
            r.controller.sleepiness_duration == 15,
            r.controller.refresh_interval == 5,
    {
        Config { server: ServerConfig::default(), controller: ControllerConfig::default() }
    }
}

/// Why the configuration could not be had.
pub enum ConfigError {
    IOError { path: String, err: String },
    SerdeYamlError(String),
    InvalidFileExtension(String),
    FileNotFoud(String),
    /// A setting is out of its range.
    InvalidValue(String),
    IdentifierParsing { field_name: String, error: ResourceNameError },
}

impl Config {
    pub open spec fn wf(&self) -> bool {
        self.server.port >= 1 && self.controller.refresh_interval >= 1
    }

    /// A configuration from its settings; a zero port or refresh interval is refused.
    pub fn new(port: u16, sleepiness_duration: u64, refresh_interval: u32) -> (r: Result<
        Config,
        ConfigError,
    >)
        ensures
            r is Ok <==> port >= 1 && refresh_interval >= 1,
            r matches Ok(c) ==> c.wf() && c.server.port == port
                && c.controller.sleepiness_duration == sleepiness_duration
                && c.controller.refresh_interval == refresh_interval,
            r matches Err(e) ==> e is InvalidValue,
    {
        if port == 0 {
            return Err(ConfigError::InvalidValue(String::from_str("server.port must not be 0")));
        }
        if refresh_interval == 0 {
            return Err(
                ConfigError::InvalidValue(
                    String::from_str("controller.refresh_interval must not be 0"),
                ),
            );
        }
        Ok(
            Config {
                server: ServerConfig { port },
                controller: ControllerConfig { sleepiness_duration, refresh_interval },
            },
        )
    }

    /// The idle threshold in milliseconds, at most `u64::MAX`.
    pub fn sleepiness_millis(&self) -> (r: u64)
        ensures
            r == if self.controller.sleepiness_duration * 1000 > u64::MAX {
                u64::MAX as int
            } else {
                self.controller.sleepiness_duration * 1000
            },
    {
        if self.controller.sleepiness_duration > u64::MAX / 1000 {
            u64::MAX
        } else {
            self.controller.sleepiness_duration * 1000
        }
    }
}

/// `yaml`
pub open spec fn yaml_word() -> Seq<char> {
    seq!['y', 'a', 'm', 'l']
}

/// `yml`
pub open spec fn yml_word() -> Seq<char> {
    seq!['y', 'm', 'l']
}

pub open spec fn ext_ok(e: Option<&String>) -> bool {
    e is Some && (e->0@ == yaml_word() || e->0@ == yml_word())
}

/// The configuration file to read, if any, and whether to warn about its `yml`
/// extension.
pub struct ConfigChoice {
    pub path: Option<String>,
    pub yml_warning: bool,
}

/// `kubesleeper.yaml`
pub open spec fn default_config_file() -> Seq<char> {
    seq!['k', 'u', 'b', 'e', 's', 'l', 'e', 'e', 'p', 'e', 'r', '.', 'y', 'a', 'm', 'l']
}

/// The path of the configuration file looked for when none is given.
pub fn default_config_path() -> (r: String)
    ensures
        r@ == default_config_file(),
{
    let v = vec!['k', 'u', 'b', 'e', 's', 'l', 'e', 'e', 'p', 'e', 'r', '.', 'y', 'a', 'm', 'l'];
    assert(v@ =~= seq!['k', 'u', 'b', 'e', 's', 'l', 'e', 'e', 'p', 'e', 'r', '.', 'y', 'a', 'm', 'l']);
    string_of(&v)
}

fn word_is(s: &String, w: &[char]) -> (r: bool)
    ensures
        r == (s@ == w@),
{
    let v = chars_of(s.as_str());
    if v.len() != w.len() {
        return false;
    }
    let mut i: usize = 0;
    while i < v.len()
        invariant
            i <= v@.len() == w@.len(),
            v@ == s@,
            forall|j: int| 0 <= j < i ==> v@[j] == w@[j],
        decreases v@.len() - i,
    {
        if v[i] != w[i] {
            return false;
        }
        i = i + 1;
    }
    assert(v@ =~= w@);
    true
}

/// Which configuration file to read. A given file must exist and end in `yaml` (or
/// `yml`, with a warning); without one, the default file is read if it exists, else the
/// defaults are used.
pub fn choose_config_file(
    given: Option<&String>,
    given_exists: bool,
    given_extension: Option<&String>,
    default_exists: bool,
) -> (r: Result<ConfigChoice, ConfigError>)
    ensures
        given is Some && !given_exists ==> (r matches Err(ConfigError::FileNotFoud(x)) && x@
            == given->0@),
        given is Some && given_exists && !ext_ok(given_extension) ==> (r matches Err(
            ConfigError::InvalidFileExtension(x),
        ) && x@ == match given_extension {
            Some(e) => e@,
            None => Seq::<char>::empty(),
        }),
        given is Some && given_exists && ext_ok(given_extension) ==> (r matches Ok(c)
            && c.path is Some && c.path->0@ == given->0@ && c.yml_warning == (
        given_extension->0@ == yml_word())),
        given is None ==> (r matches Ok(c) && c.path is Some == default_exists && !c.yml_warning),
        given is None && default_exists ==> (r matches Ok(c) && c.path is Some && c.path->0@
            == default_config_file()),
{
    match given {
        Some(p) => {
            if !given_exists {
                return Err(ConfigError::FileNotFoud(p.clone()));
            }
            match given_extension {
                Some(e) => {
                    if word_is(e, &['y', 'a', 'm', 'l']) {
                        assert(['y', 'a', 'm', 'l']@ =~= yaml_word());
                        Ok(ConfigChoice { path: Some(p.clone()), yml_warning: false })
                    } else if word_is(e, &['y', 'm', 'l']) {
                        assert(['y', 'm', 'l']@ =~= yml_word());
                        assert(['y', 'a', 'm', 'l']@ =~= yaml_word());
                        Ok(ConfigChoice { path: Some(p.clone()), yml_warning: true })
                    } else {
                        assert(['y', 'm', 'l']@ =~= yml_word());
                        assert(['y', 'a', 'm', 'l']@ =~= yaml_word());
                        Err(ConfigError::InvalidFileExtension(e.clone()))
                    }
                },
                None => Err(ConfigError::InvalidFileExtension(String::new())),
            }
        },
        None => {
            if default_exists {
                Ok(ConfigChoice { path: Some(default_config_path()), yml_warning: false })
            } else {
                Ok(ConfigChoice { path: None, yml_warning: false })
            }
        },
    }
}

pub enum ResourceNameError {
    InvalidName(String),
}

pub open spec fn is_lower(c: char) -> bool {
    'a' <= c && c <= 'z'
}

pub open spec fn is_label_char(c: char) -> bool {
    is_lower(c) || ('0' <= c && c <= '9') || c == '-' || c == '.'
}

/// A name of at most 63 characters, lower-case letters, digits, `-` and `.`, that starts
/// and ends with a lower-case letter.
pub open spec fn is_resource_name(s: Seq<char>) -> bool {
    &&& 1 <= s.len() <= 63
    &&& is_lower(s[0])
    &&& is_lower(s[s.len() - 1])
    &&& forall|i: int| 0 < i < s.len() - 1 ==> is_label_char(#[trigger] s[i])
}

/// Relies on `regex::Regex::new` and `Regex::is_match` for the pattern
/// `^[a-z]([a-z0-9\-.]{0,61}[a-z])?$`, which compiles, and which matches (`^` and `$`
/// anchoring at the ends of the text) exactly the names of `is_resource_name`.
#[verifier::external_body]
fn regex_is_match(pattern: &str, text: &str) -> (r: bool)
    requires
        pattern@ == "^[a-z]([a-z0-9\\-.]{0,61}[a-z])?$"@,
    ensures
        r == is_resource_name(text@),
{
    regex::Regex::new(pattern).map(|re| re.is_match(text)).unwrap_or(false)
}

/// A name that follows RFC 1123 as Kubernetes applies it to namespaces.
pub struct ResourceName(String);

impl View for ResourceName {
    type V = Seq<char>;

    closed spec fn view(&self) -> Seq<char> {
        self.0@
    }
}

impl ResourceName {
    pub fn try_from(value: String) -> (r: Result<ResourceName, ResourceNameError>)
        ensures
            r is Ok <==> is_resource_name(value@),
            r matches Ok(n) ==> n@ == value@,
    {
        if regex_is_match("^[a-z]([a-z0-9\\-.]{0,61}[a-z])?$", value.as_str()) {
            Ok(ResourceName(value))
        } else {
            Err(ResourceNameError::InvalidName(value))
        }
    }

    pub fn to_string(&self) -> (r: String)
        ensures
            r@ == self@,
    {
        self.0.clone()
    }
}

/// A resource named in a group: `namespace/name`.
pub struct Identifier {
    pub namespace: ResourceName,
    pub name: String,
}

pub struct Group {
    pub name: String,
    pub deploys: Vec<Identifier>,
    pub services: Vec<Identifier>,
}

impl Identifier {
    /// Reads `namespace/name`, split at the first `/`; the namespace must be a valid name.
    pub fn try_from(value: String) -> (r: Result<Identifier, ConfigError>)
        ensures
            r is Ok <==> exists|i: int| 0 <= i < value@.len() && value@[i] == '/' && is_resource_name(
                value@.take(i),
            ) && forall|j: int| 0 <= j < i ==> value@[j] != '/',
            r matches Ok(id) ==> value@ == id.namespace@ + seq!['/'] + id.name@,
            r matches Ok(id) ==> forall|j: int| 0 <= j < id.namespace@.len() ==> value@[j] != '/',
            r matches Err(e) ==> e is IdentifierParsing,
    {
        let v = chars_of(value.as_str());
        let mut i: usize = 0;
        while i < v.len() && v[i] != '/'
            invariant
                i <= v@.len(),
                v@ == value@,
                forall|j: int| 0 <= j < i ==> v@[j] != '/',
            decreases v@.len() - i,
        {
            i = i + 1;
        }
        if i == v.len() {
            return Err(
                ConfigError::IdentifierParsing {
                    field_name: value,
                    error: ResourceNameError::InvalidName(String::new()),
                },
            );
        }
        let mut ns: Vec<char> = Vec::new();
        let mut rest: Vec<char> = Vec::new();
        let mut k: usize = 0;
        while k < v.len()
            invariant
                k <= v@.len(),
                i < v@.len(),
                ns@ == v@.take(if k < i { k as int } else { i as int }),
                rest@ == if k <= i + 1 { Seq::empty() } else { v@.subrange(i + 1, k as int) },
            decreases v@.len() - k,
        {
            if k < i {
                ns.push(v[k]);
                assert(v@.take(k + 1) =~= v@.take(k as int).push(v@[k as int]));
            } else if k > i {
                rest.push(v[k]);
                assert(v@.subrange(i + 1, k + 1) =~= (if k <= i + 1 { Seq::empty() } else {
                    v@.subrange(i + 1, k as int)
                }).push(v@[k as int]));
            }
            k = k + 1;
        }
        let ns_text = string_of(&ns);
        let name = string_of(&rest);
        proof {
            assert(value@ =~= v@.take(i as int) + seq!['/'] + (if k <= i + 1 { Seq::empty() } else {
                v@.subrange(i + 1, k as int)
            }));
            assert forall|j: int| 0 <= j < value@.len() && value@[j] == '/' && is_resource_name(
                value@.take(j),
            ) && (forall|l: int| 0 <= l < j ==> value@[l] != '/') implies j == i by {
                if j < i {
                } else if j > i {
                    assert(value@[i as int] == '/');
                }
            }
        }
        match ResourceName::try_from(ns_text) {
            Ok(namespace) => Ok(Identifier { namespace, name }),
            Err(error) => Err(ConfigError::IdentifierParsing { field_name: value, error }),
        }
    }

    /// `namespace/name`
    pub fn to_string(&self) -> (r: String)
        ensures
            r@ == self.namespace@ + seq!['/'] + self.name@,
    {
        crate::deploy::join_id(&self.namespace.to_string(), &self.name)
    }
}

} // verus!
