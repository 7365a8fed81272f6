//! The routing policy: slider mappings, the volume grid, and the snapshot that
//! is replaced whole when the policy document changes.
use vstd::prelude::*;
use crate::quantize::valid_step;

verus! {

/// Least time, in milliseconds, between two looks at the document's timestamp.
pub const RELOAD_CHECK_INTERVAL_MS: u64 = 2000;

/// Default volume step: one hundredth, in millionths of full volume.
pub const DEFAULT_VOLUME_STEP: u32 = 10_000;

/// Default serial speed.
pub const DEFAULT_BAUD_RATE: u32 = 57600;

/// Settings for the volume computation.
#[derive(Debug, Clone, Copy, PartialEq, Eq, Structural)]
pub struct General {
    /// Distance between volume levels, in millionths of full volume; in (0, 1_000_000].
    pub volume_step: u32,
    /// Whether sliders run the other way.
    pub invert_direction: bool,
}

impl Default for General {
    fn default() -> (r: General)
        ensures
            r.volume_step == DEFAULT_VOLUME_STEP,
            !r.invert_direction,
    {
        General { volume_step: DEFAULT_VOLUME_STEP, invert_direction: false }
    }
}

/// Where and how to reach the device.
#[derive(Debug, Clone)]
pub struct Connection {
    pub com_port: Option<String>,
    pub baud_rate: u32,
    pub vid_filter: Option<u16>,
    pub pid_filter: Option<u16>,
    pub serial_number_filter: Option<String>,
    pub manufacturer_filter: Option<String>,
    pub product_filter: Option<String>,
}

impl Default for Connection {
    fn default() -> (r: Connection)
        ensures
            r.com_port is None,
            r.baud_rate == DEFAULT_BAUD_RATE,
            r.vid_filter is None,
            r.pid_filter is None,
            r.serial_number_filter is None,
            r.manufacturer_filter is None,
            r.product_filter is None,
    {
        Connection {
            com_port: None,
            baud_rate: DEFAULT_BAUD_RATE,
            vid_filter: None,
            pid_filter: None,
            serial_number_filter: None,
            manufacturer_filter: None,
            product_filter: None,
        }
    }
}

/// What a slider controls.
#[derive(Debug, Clone)]
pub enum VolumeTarget {
    /// The system output level.
    Master,
    /// The application that has input focus.
    CurrentApp,
    /// Every application that no `Apps` entry of the configuration names.
    Unmapped,
    /// Every application whose process name contains one of these patterns.
    Apps(Vec<String>),
}

impl Default for VolumeTarget {
    fn default() -> (r: VolumeTarget)
        ensures
            r is Apps,
            r->Apps_0@.len() == 0,
    {
        VolumeTarget::Apps(Vec::new())
    }
}

/// One slider and its target.
#[derive(Debug, Clone)]
pub struct SliderMappings {
    pub id: u8,
    pub target: VolumeTarget,
}

/// The policy document as read.
#[derive(Debug, Clone)]
pub struct Config {
    pub connection: Connection,
    pub general: General,
    pub slider: Vec<SliderMappings>,
}

/// Why a configuration could not be taken into use.
#[derive(Debug, Clone, PartialEq, Eq)]
pub enum ConfigError {
    /// The document could not be read.
    Unreadable(String),
    /// The document is not a valid policy document.
    Malformed(String),
    /// The volume step is not a fraction in (0, 1].
    InvalidVolumeStep,
}

/// The configuration in force.
#[derive(Debug, Clone)]
pub struct LoadedConfig {
    pub general: General,
    pub connection: Connection,
    /// One entry per slider id.
    pub mappings: Vec<SliderMappings>,
    /// Every pattern of every `Apps` target among `mappings`.
    pub mapped_apps: Vec<String>,
    /// Modification time of the document at the last successful load, in nanoseconds.
    pub last_modified: u64,
    /// Time of the last look at the document's timestamp, in milliseconds.
    pub last_checked: u64,
}

/// The mapping for `id` in `s`: the last entry with that id.
pub open spec fn last_with_id(s: Seq<SliderMappings>, id: u8) -> Option<SliderMappings>
    decreases s.len(),
{
    if s.len() == 0 {
        None
    } else if s.last().id == id {
        Some(s.last())
    } else {
        last_with_id(s.drop_last(), id)
    }
}

pub open spec fn ids_unique(s: Seq<SliderMappings>) -> bool {
    forall|i: int, j: int| 0 <= i < j < s.len() ==> s[i].id != s[j].id
}

pub open spec fn patterns_of(t: VolumeTarget) -> Seq<String> {
    match t {
        VolumeTarget::Apps(v) => v@,
        _ => Seq::empty(),
    }
}

/// All patterns of all `Apps` targets in `s`, in order.
pub open spec fn named_patterns(s: Seq<SliderMappings>) -> Seq<String>
    decreases s.len(),
{
    if s.len() == 0 {
        Seq::empty()
    } else {
        named_patterns(s.drop_last()) + patterns_of(s.last().target)
    }
}

/// `r` is the snapshot made from `config`, loaded at `modified` and checked at `now`.
pub open spec fn loaded_from(r: LoadedConfig, config: Config, modified: u64, now: u64) -> bool {
    &&& r.wf()
    &&& r.general == config.general
    &&& r.connection == config.connection
    &&& forall|id: u8| #[trigger] last_with_id(r.mappings@, id) == last_with_id(config.slider@, id)
    &&& r.last_modified == modified
    &&& r.last_checked == now
}

proof fn lemma_absent_id(s: Seq<SliderMappings>, id: u8)
    ensures
        last_with_id(s, id) is None <==> forall|i: int| 0 <= i < s.len() ==> s[i].id != id,
        last_with_id(s, id) is Some ==> last_with_id(s, id)->0.id == id,
    decreases s.len(),
{
    if s.len() > 0 {
        lemma_absent_id(s.drop_last(), id);
        if last_with_id(s, id) is None {
            assert forall|i: int| 0 <= i < s.len() implies s[i].id != id by {
                if i < s.len() - 1 {
                    assert(s.drop_last()[i] == s[i]);
                }
            }
        } else if s.last().id != id {
            let i = choose|i: int| 0 <= i < s.drop_last().len() && s.drop_last()[i].id == id;
            assert(s[i].id == id);
        }
    }
}

impl LoadedConfig {
    pub open spec fn wf(self) -> bool {
        &&& valid_step(self.general.volume_step)
        &&& ids_unique(self.mappings@)
        &&& self.mapped_apps@ == named_patterns(self.mappings@)
    }

    /// The target of slider `id`, if it is mapped.
    pub open spec fn target_of(self, id: u8) -> Option<VolumeTarget> {
        match last_with_id(self.mappings@, id) {
            Some(m) => Some(m.target),
            None => None,
        }
    }

    /// Builds the snapshot of `config`: one mapping per id, the last entry for an
    /// id winning, and the union of all named patterns.
    pub fn new(config: Config, last_modified: u64, now: u64) -> (r: Result<LoadedConfig, ConfigError>)
        ensures
            valid_step(config.general.volume_step) <==> r is Ok,
            r is Ok ==> loaded_from(r->Ok_0, config, last_modified, now),
            r is Err ==> r == Err::<LoadedConfig, ConfigError>(ConfigError::InvalidVolumeStep),
    {
        if config.general.volume_step == 0 || config.general.volume_step > crate::quantize::VOLUME_SCALE {
            return Err(ConfigError::InvalidVolumeStep);
        }
        let ghost orig = config.slider@;
        let general = config.general;
        let connection = config.connection;
        let mut rest = config.slider;
        let mut mappings: Vec<SliderMappings> = Vec::new();
        while rest.len() > 0
            invariant
                rest@.len() <= orig.len(),
                ids_unique(mappings@),
                forall|id: u8| #[trigger] last_with_id(orig, id) == match last_with_id(mappings@, id) {
                    Some(m) => Some(m),
                    None => last_with_id(rest@, id),
                },
            decreases rest@.len(),
        {
            let ghost before = rest@;
            let m = rest.pop().unwrap();
            assert(before.drop_last() =~= rest@);
            if !has_id(&mappings, m.id) {
                proof {
                    lemma_absent_id(mappings@, m.id);
                }
                let ghost prev = mappings@;
                mappings.push(m);
                proof {
                    assert(mappings@.drop_last() =~= prev);
                    assert forall|id: u8| #[trigger] last_with_id(orig, id) == match last_with_id(mappings@, id) {
                        Some(m) => Some(m),
                        None => last_with_id(rest@, id),
                    } by {
                        lemma_absent_id(prev, id);
                    }
                }
            }
        }
        let mapped_apps = collect_patterns(&mappings);
        Ok(LoadedConfig { general, connection, mappings, mapped_apps, last_modified, last_checked: now })
    }

    /// Whether the throttle lets the document's timestamp be looked at now;
    /// a look is recorded as made at `now_ms`.
    pub fn should_check(&mut self, now_ms: u64) -> (r: bool)
        ensures
            r == (now_ms >= old(self).last_checked
                && now_ms - old(self).last_checked >= RELOAD_CHECK_INTERVAL_MS),
            r ==> *final(self) == (LoadedConfig { last_checked: now_ms, ..*old(self) }),
            !r ==> *final(self) == *old(self),
    {
        if now_ms < self.last_checked || now_ms - self.last_checked < RELOAD_CHECK_INTERVAL_MS {
            false
        } else {
            self.last_checked = now_ms;
            true
        }
    }

    /// Whether a document modified at `modified` (if that could be read) is newer
    /// than the one in force.
    pub fn is_modified_since_load(&self, modified: Option<u64>) -> (r: bool)
        ensures
            r == (modified is Some && modified->0 > self.last_modified),
    {
        match modified {
            Some(m) => m > self.last_modified,
            None => false,
        }
    }

    /// Takes a freshly read document into use; on any failure the snapshot in
    /// force stays exactly as it was.
    pub fn reload_with(&mut self, parsed: Result<Config, ConfigError>, modified: u64) -> (r: Result<bool, ConfigError>)
        ensures
            match parsed {
                Ok(c) => if valid_step(c.general.volume_step) {
                    r == Ok::<bool, ConfigError>(true)
                        && loaded_from(*final(self), c, modified, old(self).last_checked)
                } else {
                    r == Err::<bool, ConfigError>(ConfigError::InvalidVolumeStep)
                        && *final(self) == *old(self)
                },
                Err(e) => r == Err::<bool, ConfigError>(e) && *final(self) == *old(self),
            },
    {
        match parsed {
            Ok(c) => match LoadedConfig::new(c, modified, self.last_checked) {
                Ok(n) => {
                    *self = n;
                    Ok(true)
                },
                Err(e) => Err(e),
            },
            Err(e) => Err(e),
        }
    }

    /// The target of slider `id`, if it is mapped.
    pub fn target_for(&self, id: u8) -> (r: Option<&VolumeTarget>)
        ensures
            match r {
                Some(t) => self.target_of(id) == Some(*t),
                None => self.target_of(id) is None,
            },
    {
        let mut i: usize = self.mappings.len();
        assert(self.mappings@.subrange(0, i as int) =~= self.mappings@);
        while i > 0
            invariant
                i <= self.mappings@.len(),
                last_with_id(self.mappings@, id) == last_with_id(self.mappings@.subrange(0, i as int), id),
            decreases i,
        {
            let ghost s = self.mappings@.subrange(0, i as int);
            assert(s.drop_last() =~= self.mappings@.subrange(0, i - 1));
            if self.mappings[i - 1].id == id {
                return Some(&self.mappings[i - 1].target);
            }
            i = i - 1;
        }
        None
    }
}

fn has_id(mappings: &Vec<SliderMappings>, id: u8) -> (r: bool)
    ensures
        r == (last_with_id(mappings@, id) is Some),
{
    proof {
        lemma_absent_id(mappings@, id);
    }
    let mut i: usize = 0;
    while i < mappings.len()
        invariant
            i <= mappings@.len(),
            forall|k: int| 0 <= k < i ==> mappings@[k].id != id,
        decreases mappings@.len() - i,
    {
        if mappings[i].id == id {
            assert(mappings@[i as int].id == id);
            proof {
                lemma_absent_id(mappings@, id);
                assert(!(forall|k: int| 0 <= k < mappings@.len() ==> mappings@[k].id != id));
                assert(!(last_with_id(mappings@, id) is None));
            }
            return true;
        }
        i = i + 1;
    }
    false
}

fn collect_patterns(mappings: &Vec<SliderMappings>) -> (r: Vec<String>)
    ensures
        r@ == named_patterns(mappings@),
{
    let mut out: Vec<String> = Vec::new();
    let mut i: usize = 0;
    while i < mappings.len()
        invariant
            i <= mappings@.len(),
            out@ == named_patterns(mappings@.subrange(0, i as int)),
        decreases mappings@.len() - i,
    {
        assert(mappings@.subrange(0, i + 1).drop_last() =~= mappings@.subrange(0, i as int));
        match &mappings[i].target {
            VolumeTarget::Apps(apps) => {
                let ghost start = out@;
                let mut j: usize = 0;
                while j < apps.len()
                    invariant
                        j <= apps@.len(),
                        out@ == start + apps@.subrange(0, j as int),
                    decreases apps@.len() - j,
                {
                    out.push(apps[j].clone());
                    assert(apps@.subrange(0, j + 1) =~= apps@.subrange(0, j as int).push(apps@[j as int]));
                    j = j + 1;
                }
                assert(apps@.subrange(0, apps@.len() as int) =~= apps@);
            },
            _ => {
                assert(out@ =~= out@ + Seq::<String>::empty());
            },
        }
        i = i + 1;
    }
    assert(mappings@.subrange(0, mappings@.len() as int) =~= mappings@);
    out
}

} // verus!
