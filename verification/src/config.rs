//! What a recording is asked to be: which representations of each message to keep, and
//! when buffered rows are flushed.
//!
//! rosbag2 offers two knobs, and they compose: `--storage-preset-profile` names a bundle of
//! settings, and `--storage-config-file` overrides individual keys on top of it. Both are
//! resolved here, so there is one place that validates a configuration.

use vstd::prelude::*;

use crate::text::{blank, is_blank, same_text, white_space};

verus! {

/// One way a message can be stored.
///
/// A recording keeps a set of these. Everything is derivable from [`Self::Raw`] and nothing
/// is derivable from [`Self::Lenses`], so the order here is the ladder a bag can be moved
/// up.
#[derive(Clone, Copy, Debug, PartialEq, Eq, PartialOrd, Ord, Hash, Structural)]
pub enum Representation {
    /// The CDR bytes exactly as they went over the wire.
    Raw,
    /// The message reflected into an Arrow struct from its `.msg` definition.
    Reflected,
    /// Rerun archetypes derived from the reflected message by the ROS 2 lenses.
    Lenses,
}

impl Representation {
    /// What [`Self::name`] returns.
    pub open spec fn spelling(self) -> Seq<char> {
        match self {
            Representation::Raw => "raw"@,
            Representation::Reflected => "reflected"@,
            Representation::Lenses => "lenses"@,
        }
    }

    /// The name used in configuration files.
    pub fn name(self) -> (r: &'static str)
        ensures
            r@ == self.spelling(),
    {
        match self {
            Representation::Raw => "raw",
            Representation::Reflected => "reflected",
            Representation::Lenses => "lenses",
        }
    }
}

/// What a recording does with a topic no lens matched.
///
/// Only meaningful alongside [`Representation::Lenses`].
#[derive(Clone, Copy, Debug, PartialEq, Eq, Structural)]
pub enum Unmatched {
    /// Keep the reflected struct of a topic no lens matched.
    Keep,
    /// Record only lens output, dropping everything a lens did not produce. Raw bytes that were
    /// asked for are exempt: they pass through no lens, and are kept.
    Drop,
}

/// The representations a recording keeps; never empty once validated.
#[derive(Clone, Copy, Debug, PartialEq, Eq, Structural)]
pub struct Representations {
    raw: bool,
    reflected: bool,
    lenses: bool,
}

impl View for Representations {
    type V = Set<Representation>;

    closed spec fn view(&self) -> Set<Representation> {
        Set::new(
            |r: Representation|
                match r {
                    Representation::Raw => self.raw,
                    Representation::Reflected => self.reflected,
                    Representation::Lenses => self.lenses,
                },
        )
    }
}

impl Representations {
    /// The set of nothing.
    pub fn new() -> (r: Self)
        ensures
            r@ == Set::<Representation>::empty(),
    {
        let r = Representations { raw: false, reflected: false, lenses: false };
        assert(r@ =~= Set::<Representation>::empty());
        r
    }

    /// The set of what `list` names, however often.
    pub fn from_list(list: &[Representation]) -> (r: Self)
        ensures
            r@ == list@.to_set(),
    {
        let mut r = Representations::new();
        let mut i: usize = 0;
        assert(list@.take(0) =~= Seq::<Representation>::empty());
        assert(r@ =~= list@.take(0).to_set());
        while i < list.len()
            invariant
                i <= list@.len(),
                r@ == list@.take(i as int).to_set(),
            decreases list@.len() - i,
        {
            r.insert(list[i]);
            proof {
                let before = list@.take(i as int);
                let after = list@.take(i as int + 1);
                assert(after =~= before.push(list@[i as int]));
                assert(after.last() == list@[i as int]);
                assert forall|x: Representation| after.contains(x) implies before.contains(x) || x
                    == list@[i as int] by {
                    let k = choose|k: int| 0 <= k < after.len() && after[k] == x;
                    if k < i {
                        assert(before[k] == x);
                    }
                }
                assert forall|x: Representation| before.contains(x) implies after.contains(x) by {
                    let k = choose|k: int| 0 <= k < before.len() && before[k] == x;
                    assert(after[k] == x);
                }
                assert(after.to_set() =~= before.to_set().insert(list@[i as int]));
            }
            i += 1;
        }
        assert(list@.take(i as int) =~= list@);
        r
    }

    pub fn contains(&self, representation: &Representation) -> (r: bool)
        ensures
            r == self@.contains(*representation),
    {
        match *representation {
            Representation::Raw => self.raw,
            Representation::Reflected => self.reflected,
            Representation::Lenses => self.lenses,
        }
    }

    pub fn insert(&mut self, representation: Representation)
        ensures
            final(self)@ == old(self)@.insert(representation),
    {
        match representation {
            Representation::Raw => {
                self.raw = true;
            },
            Representation::Reflected => {
                self.reflected = true;
            },
            Representation::Lenses => {
                self.lenses = true;
            },
        }
        assert(self@ =~= old(self)@.insert(representation));
    }

    pub fn is_empty(&self) -> (r: bool)
        ensures
            r == (self@ == Set::<Representation>::empty()),
    {
        let r = !self.raw && !self.reflected && !self.lenses;
        proof {
            if r {
                assert(self@ =~= Set::<Representation>::empty());
            } else {
                assert(self@.contains(Representation::Raw) || self@.contains(
                    Representation::Reflected,
                ) || self@.contains(Representation::Lenses));
            }
        }
        r
    }
}

/// The members of a set of representations, in ladder order.
pub open spec fn ladder(representations: Set<Representation>) -> Seq<Representation> {
    seq![Representation::Raw, Representation::Reflected, Representation::Lenses].filter(
        |r: Representation| representations.contains(r),
    )
}

/// The names of `list`, separated by commas.
pub open spec fn comma_separated(list: Seq<Representation>) -> Seq<char>
    decreases list.len(),
{
    if list.len() == 0 {
        Seq::empty()
    } else if list.len() == 1 {
        list[0].spelling()
    } else {
        comma_separated(list.drop_last()) + ","@ + list.last().spelling()
    }
}

/// `raw,lenses` — how a set is shown in messages.
pub fn format_representations(representations: &Representations) -> (r: String)
    ensures
        r@ == comma_separated(ladder(representations@)),
{
    let mut out = String::new();
    let mut shown: usize = 0;
    let rungs = [Representation::Raw, Representation::Reflected, Representation::Lenses];
    let mut i: usize = 0;
    let ghost keep = |r: Representation| representations@.contains(r);
    let ghost all = seq![Representation::Raw, Representation::Reflected, Representation::Lenses];
    assert(rungs@ =~= all);
    reveal(Seq::filter);
    assert(all.take(0).filter(keep) =~= Seq::<Representation>::empty());
    assert(out@ =~= Seq::<char>::empty());
    while i < 3
        invariant
            i <= 3,
            rungs@ == all,
            all.len() == 3,
            keep == (|r: Representation| representations@.contains(r)),
            shown == all.take(i as int).filter(keep).len(),
            shown <= i,
            out@ == comma_separated(all.take(i as int).filter(keep)),
        decreases 3 - i,
    {
        let ghost before = all.take(i as int).filter(keep);
        proof {
            reveal(Seq::filter);
            let step = all.take(i as int + 1);
            assert(step.drop_last() =~= all.take(i as int));
            assert(step.last() == all[i as int]);
        }
        if representations.contains(&rungs[i]) {
            proof {
                assert(all.take(i as int + 1).filter(keep) =~= before.push(all[i as int]));
                assert(before.push(all[i as int]).drop_last() =~= before);
            }
            if shown > 0 {
                out.append(",");
            }
            out.append(rungs[i].name());
            shown += 1;
            assert(out@ =~= comma_separated(before.push(all[i as int])));
        }
        i += 1;
    }
    assert(all.take(3) =~= all);
    out
}

/// When a topic's buffered rows are handed to the recording stream.
///
/// All three limits are checked per message, and whichever is reached first wins.
#[derive(Clone, Copy, Debug, PartialEq, Eq, Structural)]
pub struct FlushPolicy {
    /// Buffered rows to allow, or `0` for no row limit.
    pub max_rows: usize,
    /// Buffered payload bytes to allow, or `0` for no byte limit.
    pub max_bytes: usize,
    /// How long a row may wait, in nanoseconds, or `None` for no time limit.
    pub max_latency: Option<u128>,
}

/// Everything a writer needs to know about the recording it is asked to make.
#[derive(Clone, Debug, PartialEq, Eq)]
pub struct RecordingConfig {
    pub flush: FlushPolicy,
    pub representations: Representations,
    /// What becomes of a topic no lens matched; only consulted when the recording asks
    /// for [`Representation::Lenses`] and not [`Representation::Reflected`].
    pub unmatched: Unmatched,
    /// The Rerun recording id to write under, or `None` for a fresh random one.
    pub recording_id: Option<String>,
    /// The canonical URL of a running Rerun server that every chunk is also streamed to;
    /// `None` writes the file only.
    pub server_uri: Option<String>,
}

/// Why a configuration was refused.
#[derive(Clone, Debug, PartialEq, Eq)]
pub enum ConfigError {
    /// No preset profile has this name.
    UnknownProfile { name: String },
    /// The storage config file is not one, for this reason.
    Unparsable { reason: String },
    /// The file sets `representations` to an empty list.
    NoRepresentations,
    /// `unmatched: drop` without lenses, or together with the reflected form.
    DropContradiction { got: Representations },
    /// The file sets `recording_id` to nothing but white space.
    EmptyRecordingId,
    /// The file sets `server_uri` to something that is no Rerun proxy URL.
    BadServerUri { uri: String },
}

impl ConfigError {
    /// The text [`Self::message`] returns.
    pub open spec fn wording(self) -> Seq<char> {
        match self {
            ConfigError::UnknownProfile { name } => "unknown storage preset profile '"@ + name@
                + "', expected one of: none, low_latency, ultra_low_latency, high_throughput"@,
            ConfigError::Unparsable { reason } => "failed to parse the storage config file: "@
                + reason@,
            ConfigError::NoRepresentations =>
                "the storage config file asks for no representations at all; choose at least one of: raw, reflected, lenses"@,
            ConfigError::DropContradiction { got } =>
                "'unmatched: drop' keeps only what the lenses derive, so it needs representations to include 'lenses' and not 'reflected'; got ["@
                + comma_separated(ladder(got@)) + "]"@,
            ConfigError::EmptyRecordingId =>
                "the storage config file sets an empty recording_id"@,
            ConfigError::BadServerUri { uri } => "the storage config file's server_uri '"@ + uri@
                + "' is not a Rerun proxy URL like rerun+http://127.0.0.1:9876/proxy"@,
        }
    }

    /// The reason, as it is shown to the user.
    pub fn message(&self) -> (r: String)
        ensures
            r@ == self.wording(),
    {
        let mut out = String::new();
        match self {
            ConfigError::UnknownProfile { name } => {
                out.append("unknown storage preset profile '");
                out.append(name.as_str());
                out.append(
                    "', expected one of: none, low_latency, ultra_low_latency, high_throughput",
                );
            },
            ConfigError::Unparsable { reason } => {
                out.append("failed to parse the storage config file: ");
                out.append(reason.as_str());
            },
            ConfigError::NoRepresentations => {
                out.append(
                    "the storage config file asks for no representations at all; choose at least one of: raw, reflected, lenses",
                );
            },
            ConfigError::DropContradiction { got } => {
                out.append(
                    "'unmatched: drop' keeps only what the lenses derive, so it needs representations to include 'lenses' and not 'reflected'; got [",
                );
                out.append(format_representations(got).as_str());
                out.append("]");
            },
            ConfigError::EmptyRecordingId => {
                out.append("the storage config file sets an empty recording_id");
            },
            ConfigError::BadServerUri { uri } => {
                out.append("the storage config file's server_uri '");
                out.append(uri.as_str());
                out.append("' is not a Rerun proxy URL like rerun+http://127.0.0.1:9876/proxy");
            },
        }
        assert(out@ =~= self.wording());
        out
    }
}

/// The flush limits a preset profile stands for, or `None` for a name no profile has.
pub open spec fn profile_flush(name: Seq<char>) -> Option<FlushPolicy> {
    if name == ""@ || name == "none"@ {
        Some(
            FlushPolicy { max_rows: 64, max_bytes: 8_388_608, max_latency: Some(200_000_000) },
        )
    } else if name == "low_latency"@ {
        Some(FlushPolicy { max_rows: 0, max_bytes: 8_388_608, max_latency: Some(33_333_333) })
    } else if name == "ultra_low_latency"@ {
        Some(FlushPolicy { max_rows: 0, max_bytes: 8_388_608, max_latency: Some(16_666_666) })
    } else if name == "high_throughput"@ {
        Some(FlushPolicy { max_rows: 1024, max_bytes: 8_388_608, max_latency: None })
    } else {
        None
    }
}

impl RecordingConfig {
    /// The configuration of a profile on its own: the given flush limits, and the reflected
    /// form of every message.
    pub open spec fn is_plain(self, flush: FlushPolicy) -> bool {
        &&& self.flush == flush
        &&& self.representations@ == set![Representation::Reflected]
        &&& self.unmatched == Unmatched::Keep
        &&& self.recording_id is None
        &&& self.server_uri is None
    }

    /// A configuration that [`RecordingConfig::resolve`] lets through: it keeps something,
    /// and drops what no lens matched only where lens output was asked for and the reflected
    /// form was not.
    pub open spec fn valid(self) -> bool {
        &&& self.representations@ != Set::<Representation>::empty()
        &&& self.unmatched == Unmatched::Drop ==> {
            &&& self.representations@.contains(Representation::Lenses)
            &&& !self.representations@.contains(Representation::Reflected)
        }
    }

    /// Resolves a `--storage-preset-profile` name.
    ///
    /// The latency-bound profiles exist for watching a recording live, the row- and
    /// byte-bound ones for recording throughput. Every profile records the reflected form.
    pub fn from_profile(name: &str) -> (r: Result<Self, ConfigError>)
        ensures
            match r {
                Ok(config) => profile_flush(name@) is Some && config.is_plain(
                    profile_flush(name@)->0,
                ) && config.valid(),
                Err(e) => profile_flush(name@) is None && e is UnknownProfile
                    && e->UnknownProfile_name@ == name@,
            },
    {
        let flush = if same_text(name, "") || same_text(name, "none") {
            FlushPolicy { max_rows: 64, max_bytes: 8_388_608, max_latency: Some(200_000_000) }
        } else if same_text(name, "low_latency") {
            FlushPolicy { max_rows: 0, max_bytes: 8_388_608, max_latency: Some(33_333_333) }
        } else if same_text(name, "ultra_low_latency") {
            FlushPolicy { max_rows: 0, max_bytes: 8_388_608, max_latency: Some(16_666_666) }
        } else if same_text(name, "high_throughput") {
            FlushPolicy { max_rows: 1024, max_bytes: 8_388_608, max_latency: None }
        } else {
            return Err(ConfigError::UnknownProfile { name: name.to_owned() });
        };

        let mut representations = Representations::new();
        representations.insert(Representation::Reflected);
        assert(representations@ =~= set![Representation::Reflected]);
        assert(representations@.contains(Representation::Reflected));
        Ok(
            RecordingConfig {
                flush,
                representations,
                unmatched: Unmatched::Keep,
                recording_id: None,
                server_uri: None,
            },
        )
    }

    /// Resolves a profile and applies the `--storage-config-file` on top, if there is one.
    ///
    /// `parse` reads the file's YAML; it is not called for a file that holds nothing but
    /// white space.
    pub fn resolve<F: FnOnce(&str) -> Result<ConfigFile, String>>(
        profile: &str,
        config_yaml: &str,
        parse: F,
    ) -> (r: Result<Self, ConfigError>)
        requires
            call_requires(parse, (config_yaml,)),
        ensures
            profile_flush(profile@) is None <==> (r matches Err(e) && e is UnknownProfile),
            r matches Err(ConfigError::UnknownProfile { name }) ==> name@ == profile@,
            profile_flush(profile@) is Some && blank(config_yaml@) ==> r is Ok && r->Ok_0.is_plain(
                profile_flush(profile@)->0,
            ),
            profile_flush(profile@) is Some && !blank(config_yaml@) ==> exists|
                plain: RecordingConfig,
                parsed: Result<ConfigFile, String>,
            |
                {
                    &&& #[trigger] plain.is_plain(profile_flush(profile@)->0)
                    &&& #[trigger] call_ensures(parse, (config_yaml,), parsed)
                    &&& match parsed {
                        Ok(file) => file.applied(plain, file.proxy(), r),
                        Err(reason) => r matches Err(ConfigError::Unparsable { reason: told })
                            && told == reason,
                    }
                },
            r matches Ok(config) ==> config.valid(),
    {
        let config = match Self::from_profile(profile) {
            Ok(config) => config,
            Err(e) => {
                return Err(e);
            },
        };
        if is_blank(config_yaml) {
            return Ok(config);
        }
        match parse(config_yaml) {
            Ok(file) => {
                let r = file.apply(config);
                assert(file.applied(config, file.proxy(), r));
                r
            },
            Err(reason) => Err(ConfigError::Unparsable { reason }),
        }
    }
}

/// What [`re_uri::ProxyUri`] reads a text as: the canonical URL, or nothing.
pub uninterp spec fn proxy_uri(text: Seq<char>) -> Option<Seq<char>>;

/// Calls `re_uri::ProxyUri`'s `from_str` and `to_string`: the canonical URL of the Rerun
/// proxy that `text` names, or `None` where it names none. Which texts those are is the URL
/// grammar of `re_uri`, a function of the text alone.
#[verifier::external_body]
fn parse_proxy_uri(text: &str) -> (r: Option<String>)
    ensures
        proxy_uri(text@) == (match r {
            Some(uri) => Some(uri@),
            None => None,
        }),
{
    text.parse::<re_uri::ProxyUri>().ok().map(|uri| uri.to_string())
}

/// The keys a `--storage-config-file` may set. Each one overrides the profile's value.
///
/// ```yaml
/// representations: [raw, lenses]
/// unmatched: keep       # or `drop`: record only what the lenses derived
/// recording_id: 5f3a    # an existing bag's id, to record a layer on top of it
/// server_uri: rerun+http://127.0.0.1:9876/proxy   # also stream to a running Rerun server
/// max_rows: 64          # 0 = no row limit
/// max_bytes: 8388608    # 0 = no byte limit
/// max_latency_ms: 200   # 0 = no time limit
/// ```
#[derive(Clone, Debug)]
pub struct ConfigFile {
    pub representations: Option<Vec<Representation>>,
    pub unmatched: Option<Unmatched>,
    pub recording_id: Option<String>,
    pub server_uri: Option<String>,
    pub max_rows: Option<usize>,
    pub max_bytes: Option<usize>,
    pub max_latency_ms: Option<u64>,
}

impl ConfigFile {
    /// The representations kept once this file is applied to `config`.
    pub open spec fn keeps(self, config: RecordingConfig) -> Set<Representation> {
        match self.representations {
            Some(list) => list@.to_set(),
            None => config.representations@,
        }
    }

    /// What becomes of unmatched topics once this file is applied to `config`.
    pub open spec fn leaves(self, config: RecordingConfig) -> Unmatched {
        match self.unmatched {
            Some(unmatched) => unmatched,
            None => config.unmatched,
        }
    }

    pub open spec fn asks_for_nothing(self) -> bool {
        self.representations matches Some(list) && list@.len() == 0
    }

    /// Whether dropping what the lenses did not produce contradicts what is kept.
    pub open spec fn contradicts(self, config: RecordingConfig) -> bool {
        &&& self.leaves(config) == Unmatched::Drop
        &&& !(self.keeps(config).contains(Representation::Lenses) && !self.keeps(config).contains(
            Representation::Reflected,
        ))
    }

    pub open spec fn names_nothing(self) -> bool {
        self.recording_id matches Some(id) && blank(id@)
    }

    /// What `re_uri` reads this file's `server_uri` as.
    pub open spec fn proxy(self) -> Option<Seq<char>> {
        match self.server_uri {
            Some(uri) => proxy_uri(uri@),
            None => None,
        }
    }

    /// What applying this file to `config` comes to, given what its `server_uri` reads as:
    /// the first complaint there is about it, or `config` with every key it sets replaced.
    pub open spec fn applied(
        self,
        config: RecordingConfig,
        proxy: Option<Seq<char>>,
        r: Result<RecordingConfig, ConfigError>,
    ) -> bool {
        if self.asks_for_nothing() {
            r == Err::<RecordingConfig, ConfigError>(ConfigError::NoRepresentations)
        } else if self.contradicts(config) {
            r matches Err(ConfigError::DropContradiction { got }) && got@ == self.keeps(config)
        } else if self.names_nothing() {
            r == Err::<RecordingConfig, ConfigError>(ConfigError::EmptyRecordingId)
        } else if self.server_uri is Some && proxy is None {
            r matches Err(ConfigError::BadServerUri { uri }) && uri@ == self.server_uri->0@
        } else {
            r matches Ok(after) && self.overrides(config, proxy, after)
        }
    }

    /// Every key this file sets has its value in `after`, every other one its value in
    /// `config`.
    pub open spec fn overrides(
        self,
        config: RecordingConfig,
        proxy: Option<Seq<char>>,
        after: RecordingConfig,
    ) -> bool {
        &&& after.representations@ == self.keeps(config)
        &&& after.unmatched == self.leaves(config)
        &&& after.recording_id == (if self.recording_id is Some {
            self.recording_id
        } else {
            config.recording_id
        })
        &&& self.server_uri is Some ==> after.server_uri is Some && proxy == Some(
            after.server_uri->0@,
        )
        &&& self.server_uri is None ==> after.server_uri == config.server_uri
        &&& after.flush.max_rows == (match self.max_rows {
            Some(rows) => rows,
            None => config.flush.max_rows,
        })
        &&& after.flush.max_bytes == (match self.max_bytes {
            Some(bytes) => bytes,
            None => config.flush.max_bytes,
        })
        &&& after.flush.max_latency == (match self.max_latency_ms {
            Some(ms) => if ms > 0 {
                Some((ms * 1_000_000) as u128)
            } else {
                None
            },
            None => config.flush.max_latency,
        })
    }

    /// Applies this file on top of `config`.
    pub fn apply(self, config: RecordingConfig) -> (r: Result<RecordingConfig, ConfigError>)
        ensures
            self.applied(config, self.proxy(), r),
            config.valid() && r is Ok ==> r->Ok_0.valid(),
    {
        let proxy = match &self.server_uri {
            Some(uri) => parse_proxy_uri(uri.as_str()),
            None => None,
        };
        self.apply_with(proxy, config)
    }

    /// Applies this file on top of `config`, with its `server_uri` read as `proxy`: the
    /// canonical URL of the proxy it names, or `None` where it names none.
    pub fn apply_with(self, proxy: Option<String>, config: RecordingConfig) -> (r: Result<
        RecordingConfig,
        ConfigError,
    >)
        ensures
            self.applied(
                config,
                match proxy {
                    Some(uri) => Some(uri@),
                    None => None,
                },
                r,
            ),
            config.valid() && r is Ok ==> r->Ok_0.valid(),
    {
        let mut config = config;
        if let Some(list) = &self.representations {
            if list.len() == 0 {
                return Err(ConfigError::NoRepresentations);
            }
            config.representations = Representations::from_list(list.as_slice());
            assert(list@.to_set().contains(list@[0]));
        }
        if let Some(unmatched) = self.unmatched {
            config.unmatched = unmatched;
        }
        if config.unmatched == Unmatched::Drop && !(config.representations.contains(
            &Representation::Lenses,
        ) && !config.representations.contains(&Representation::Reflected)) {
            return Err(ConfigError::DropContradiction { got: config.representations });
        }
        if let Some(recording_id) = self.recording_id {
            if is_blank(recording_id.as_str()) {
                return Err(ConfigError::EmptyRecordingId);
            }
            config.recording_id = Some(recording_id);
        }
        if let Some(uri) = self.server_uri {
            if proxy.is_none() {
                return Err(ConfigError::BadServerUri { uri });
            }
            config.server_uri = proxy;
        }
        if let Some(max_rows) = self.max_rows {
            config.flush.max_rows = max_rows;
        }
        if let Some(max_bytes) = self.max_bytes {
            config.flush.max_bytes = max_bytes;
        }
        if let Some(ms) = self.max_latency_ms {
            config.flush.max_latency = if ms > 0 {
                Some(ms as u128 * 1_000_000)
            } else {
                None
            };
        }
        Ok(config)
    }
}

/// Every profile is one of five names, and any other name is refused. All of them flush at eight
/// mebibytes; those for low latency flush by time and not by rows, the one for throughput by rows
/// and not by time, and the default by both.
pub proof fn profiles_are_told_apart_by_what_they_limit(name: Seq<char>)
    ensures
        profile_flush(name) is Some <==> name == ""@ || name == "none"@ || name == "low_latency"@
            || name == "ultra_low_latency"@ || name == "high_throughput"@,
        profile_flush(name) matches Some(flush) ==> {
            &&& flush.max_bytes == 8 * 1024 * 1024
            &&& flush.max_rows == 0 <==> name == "low_latency"@ || name == "ultra_low_latency"@
            &&& flush.max_latency is None <==> name == "high_throughput"@
            &&& flush.max_rows == 64 <==> name == ""@ || name == "none"@
            &&& flush.max_rows == 1024 <==> name == "high_throughput"@
            &&& flush.max_latency matches Some(max) ==> {
                &&& max == 200 * 1_000_000 <==> name == ""@ || name == "none"@
                &&& name == "low_latency"@ ==> 30 * max <= 1_000_000_000 < 30 * (max + 1)
                &&& name == "ultra_low_latency"@ ==> 60 * max <= 1_000_000_000 < 60 * (max + 1)
            }
        },
        profile_flush(""@) == profile_flush("none"@),
{
    reveal_strlit("");
    reveal_strlit("none");
    reveal_strlit("low_latency");
    reveal_strlit("ultra_low_latency");
    reveal_strlit("high_throughput");
    assert(""@.len() == 0 && "none"@.len() == 4 && "low_latency"@.len() == 11
        && "ultra_low_latency"@.len() == 17 && "high_throughput"@.len() == 15);
}

/// A config file replaces exactly what it sets: every key it has is in force afterwards with the
/// value it gives, every key it has not stays as it was, whatever the other keys are. A limit of
/// zero milliseconds is no limit.
pub proof fn a_file_replaces_exactly_what_it_sets(
    file: ConfigFile,
    before: RecordingConfig,
    proxy: Option<Seq<char>>,
    after: RecordingConfig,
)
    requires
        file.applied(before, proxy, Ok(after)),
    ensures
        file.max_rows matches Some(rows) ==> after.flush.max_rows == rows,
        file.max_rows is None ==> after.flush.max_rows == before.flush.max_rows,
        file.max_bytes matches Some(bytes) ==> after.flush.max_bytes == bytes,
        file.max_bytes is None ==> after.flush.max_bytes == before.flush.max_bytes,
        file.max_latency_ms matches Some(ms) ==> (after.flush.max_latency is None <==> ms == 0),
        file.max_latency_ms matches Some(ms) ==> (ms > 0 ==> after.flush.max_latency->0 == ms
            * 1_000_000),
        file.max_latency_ms is None ==> after.flush.max_latency == before.flush.max_latency,
        file.unmatched matches Some(unmatched) ==> after.unmatched == unmatched,
        file.unmatched is None ==> after.unmatched == before.unmatched,
        file.representations matches Some(list) ==> forall|r: Representation| #[trigger]
            after.representations@.contains(r) <==> exists|i: int|
                0 <= i < list@.len() && list@[i] == r,
        file.representations is None ==> after.representations@ == before.representations@,
        file.recording_id is Some ==> after.recording_id == file.recording_id,
        file.recording_id is None ==> after.recording_id == before.recording_id,
        file.server_uri is Some ==> after.server_uri is Some && proxy == Some(
            after.server_uri->0@,
        ),
        file.server_uri is None ==> after.server_uri == before.server_uri,
{
    if let Some(ms) = file.max_latency_ms {
        assert(ms * 1_000_000 <= u128::MAX) by (nonlinear_arith)
            requires
                ms <= 0xffff_ffff_ffff_ffff,
        ;
    }
}

/// A config file is refused for four reasons and no other, and the first of them that there is
/// is the one that is told: it keeps nothing, it drops what it also keeps or drops it without
/// lenses, its recording id is white space, or its server is none.
pub proof fn a_file_is_refused_only_for_a_reason(
    file: ConfigFile,
    before: RecordingConfig,
    proxy: Option<Seq<char>>,
    r: Result<RecordingConfig, ConfigError>,
)
    requires
        file.applied(before, proxy, r),
    ensures
        ({
            let nothing = file.representations matches Some(list) && list@.len() == 0;
            let keeps = |kept: Representation|
                match file.representations {
                    Some(list) => exists|i: int| 0 <= i < list@.len() && list@[i] == kept,
                    None => before.representations@.contains(kept),
                };
            let drops = match file.unmatched {
                Some(unmatched) => unmatched == Unmatched::Drop,
                None => before.unmatched == Unmatched::Drop,
            };
            let contradiction = drops && (!keeps(Representation::Lenses) || keeps(
                Representation::Reflected,
            ));
            let nameless = file.recording_id matches Some(id) && forall|i: int|
                0 <= i < id@.len() ==> white_space(#[trigger] id@[i]);
            let serverless = file.server_uri is Some && proxy is None;
            &&& r is Err <==> nothing || contradiction || nameless || serverless
            &&& r matches Err(why) ==> {
                &&& why is NoRepresentations <==> nothing
                &&& why is DropContradiction <==> !nothing && contradiction
                &&& why is EmptyRecordingId <==> !nothing && !contradiction && nameless
                &&& why is BadServerUri <==> !nothing && !contradiction && !nameless && serverless
            }
        }),
{
    if let Some(list) = file.representations {
        assert forall|kept: Representation| #[trigger] list@.to_set().contains(kept) <==> exists|
            i: int,
        | 0 <= i < list@.len() && list@[i] == kept by {}
        assert(list@.to_set().contains(Representation::Lenses) || !list@.to_set().contains(
            Representation::Lenses,
        ));
        assert(list@.to_set().contains(Representation::Reflected) || !list@.to_set().contains(
            Representation::Reflected,
        ));
    }
}

/// What a set of representations is shown as names each of them once, in the order of the ladder,
/// with a comma between two.
pub proof fn a_set_is_shown_in_ladder_order(set: Set<Representation>)
    ensures
        ({
            let shown = comma_separated(ladder(set));
            let raw = set.contains(Representation::Raw);
            let reflected = set.contains(Representation::Reflected);
            let lenses = set.contains(Representation::Lenses);
            &&& raw && reflected && lenses ==> shown == "raw,reflected,lenses"@
            &&& raw && reflected && !lenses ==> shown == "raw,reflected"@
            &&& raw && !reflected && lenses ==> shown == "raw,lenses"@
            &&& raw && !reflected && !lenses ==> shown == "raw"@
            &&& !raw && reflected && lenses ==> shown == "reflected,lenses"@
            &&& !raw && reflected && !lenses ==> shown == "reflected"@
            &&& !raw && !reflected && lenses ==> shown == "lenses"@
            &&& !raw && !reflected && !lenses ==> shown.len() == 0
        }),
{
    reveal_strlit("raw,reflected,lenses");
    reveal_strlit("raw,reflected");
    reveal_strlit("raw,lenses");
    reveal_strlit("raw");
    reveal_strlit("reflected,lenses");
    reveal_strlit("reflected");
    reveal_strlit("lenses");
    reveal_strlit(",");
    let keep = |r: Representation| set.contains(r);
    let all = seq![Representation::Raw, Representation::Reflected, Representation::Lenses];
    let two = all.drop_last();
    let one = two.drop_last();
    let none = one.drop_last();
    reveal(Seq::filter);
    assert(none =~= Seq::<Representation>::empty());
    assert(one =~= seq![Representation::Raw]);
    assert(two =~= seq![Representation::Raw, Representation::Reflected]);
    assert(none.filter(keep) =~= Seq::<Representation>::empty());
    let first = one.filter(keep);
    let second = two.filter(keep);
    let third = all.filter(keep);
    assert(first =~= if keep(Representation::Raw) {
        seq![Representation::Raw]
    } else {
        Seq::empty()
    });
    assert(second =~= if keep(Representation::Reflected) {
        first.push(Representation::Reflected)
    } else {
        first
    });
    assert(third =~= if keep(Representation::Lenses) {
        second.push(Representation::Lenses)
    } else {
        second
    });
    assert(third == ladder(set));
    reveal_with_fuel(comma_separated, 4);
    let shown = comma_separated(third);
    assert(third.drop_last() =~= second || !keep(Representation::Lenses));
    assert(second.drop_last() =~= first || !keep(Representation::Reflected));
    let raw = set.contains(Representation::Raw);
    let reflected = set.contains(Representation::Reflected);
    let lenses = set.contains(Representation::Lenses);
    if raw && reflected && lenses {
        assert(shown =~= "raw,reflected,lenses"@);
    } else if raw && reflected {
        assert(shown =~= "raw,reflected"@);
    } else if raw && lenses {
        assert(shown =~= "raw,lenses"@);
    } else if raw {
        assert(shown =~= "raw"@);
    } else if reflected && lenses {
        assert(shown =~= "reflected,lenses"@);
    } else if reflected {
        assert(shown =~= "reflected"@);
    } else if lenses {
        assert(shown =~= "lenses"@);
    }
}

/// Every profile records the reflected form of each message and no other, keeps topics that no
/// lens matches, and writes to a file alone under an id of its own. Of a name that no profile has,
/// the name itself is told.
pub proof fn every_profile_records_the_reflected_form(
    name: &str,
    r: Result<RecordingConfig, ConfigError>,
)
    requires
        call_ensures(RecordingConfig::from_profile, (name,), r),
    ensures
        r is Ok <==> name@ == ""@ || name@ == "none"@ || name@ == "low_latency"@ || name@
            == "ultra_low_latency"@ || name@ == "high_throughput"@,
        r matches Ok(config) ==> {
            &&& config.representations@.contains(Representation::Reflected)
            &&& !config.representations@.contains(Representation::Raw)
            &&& !config.representations@.contains(Representation::Lenses)
            &&& config.unmatched == Unmatched::Keep
            &&& config.recording_id is None
            &&& config.server_uri is None
            &&& config.flush == profile_flush(name@)->0
        },
        r matches Err(why) ==> why is UnknownProfile && why->UnknownProfile_name@ == name@,
{
    profiles_are_told_apart_by_what_they_limit(name@);
}

/// What a complaint is about stands in it word for word.
pub proof fn a_complaint_says_what_it_is_about(why: ConfigError, r: String)
    requires
        call_ensures(ConfigError::message, (&why,), r),
    ensures
        r@.len() > 0,
        why matches ConfigError::UnknownProfile { name } ==> is_within(name@, r@),
        why matches ConfigError::Unparsable { reason } ==> is_within(reason@, r@),
        why matches ConfigError::DropContradiction { got } ==> is_within(
            comma_separated(ladder(got@)),
            r@,
        ),
        why matches ConfigError::BadServerUri { uri } ==> is_within(uri@, r@),
{
    reveal_strlit("unknown storage preset profile '");
    reveal_strlit("failed to parse the storage config file: ");
    reveal_strlit("the storage config file's server_uri '");
    reveal_strlit(
        "the storage config file asks for no representations at all; choose at least one of: raw, reflected, lenses",
    );
    reveal_strlit(
        "'unmatched: drop' keeps only what the lenses derive, so it needs representations to include 'lenses' and not 'reflected'; got [",
    );
    reveal_strlit("the storage config file sets an empty recording_id");
    match why {
        ConfigError::UnknownProfile { name } => {
            let from = "unknown storage preset profile '"@.len() as int;
            assert(r@.subrange(from, from + name@.len()) =~= name@);
        },
        ConfigError::Unparsable { reason } => {
            let from = "failed to parse the storage config file: "@.len() as int;
            assert(r@.subrange(from, from + reason@.len()) =~= reason@);
        },
        ConfigError::DropContradiction { got } => {
            let from =
                "'unmatched: drop' keeps only what the lenses derive, so it needs representations to include 'lenses' and not 'reflected'; got ["@.len() as int;
            let shown = comma_separated(ladder(got@));
            assert(r@.subrange(from, from + shown.len()) =~= shown);
        },
        ConfigError::BadServerUri { uri } => {
            let from = "the storage config file's server_uri '"@.len() as int;
            assert(r@.subrange(from, from + uri@.len()) =~= uri@);
        },
        _ => {},
    }
}

/// Whether a text stands somewhere in another.
pub open spec fn is_within(part: Seq<char>, text: Seq<char>) -> bool {
    exists|from: int|
        0 <= from && from + part.len() <= text.len() && #[trigger] text.subrange(
            from,
            from + part.len(),
        ) == part
}

} // verus!
