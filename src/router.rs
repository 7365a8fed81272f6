//! Turning a slider event into a volume command under the configuration in force.
use vstd::prelude::*;
use crate::config::{LoadedConfig, VolumeTarget};
use crate::event::Slider;
use crate::quantize::{level_for_value, level_of_value};

verus! {

/// The lower-case form of a text, as the standard library computes it.
pub uninterp spec fn lower_of(s: Seq<char>) -> Seq<char>;

/// Relies on `str::to_lowercase`: its result depends on the characters alone.
#[verifier::external_body]
fn lowercase(s: &str) -> (r: String)
    ensures
        r@ == lower_of(s@),
{
    s.to_lowercase()
}

/// An audio session as the audio backend lists it.
#[derive(Debug, Clone)]
pub struct AudioSession {
    pub pid: u32,
    pub name: String,
}

/// What the audio backend is asked to do. Levels are in millionths of full volume.
#[derive(Debug, Clone, PartialEq, Eq)]
pub enum VolumeCommand {
    SetMaster(u32),
    SetCurrentApp(u32),
    SetSessions { level: u32, pids: Vec<u32> },
}

/// `needle` occurs in `hay`.
pub open spec fn is_infix(needle: Seq<char>, hay: Seq<char>) -> bool {
    exists|i: int|
        0 <= i && i + needle.len() <= hay.len() && #[trigger] hay.subrange(i, i + needle.len()) == needle
}

/// Some pattern occurs in `name`.
pub open spec fn matches_any(name: Seq<char>, patterns: Seq<Seq<char>>) -> bool {
    exists|k: int| 0 <= k < patterns.len() && is_infix(#[trigger] patterns[k], name)
}

/// The pids of the sessions whose name matches some pattern (or, with `exclude`,
/// matches none), in session order.
pub open spec fn selected(sessions: Seq<(u32, Seq<char>)>, patterns: Seq<Seq<char>>, exclude: bool) -> Seq<u32>
    decreases sessions.len(),
{
    if sessions.len() == 0 {
        Seq::empty()
    } else {
        let s = sessions.last();
        let rest = selected(sessions.drop_last(), patterns, exclude);
        if matches_any(s.1, patterns) != exclude {
            rest.push(s.0)
        } else {
            rest
        }
    }
}

pub open spec fn texts(s: Seq<String>) -> Seq<Seq<char>> {
    s.map(|_i, t: String| t@)
}

pub open spec fn lowered(s: Seq<String>) -> Seq<Seq<char>> {
    s.map(|_i, t: String| lower_of(t@))
}

pub open spec fn session_names(s: Seq<AudioSession>) -> Seq<(u32, Seq<char>)> {
    s.map(|_i, a: AudioSession| (a.pid, a.name@))
}

pub open spec fn lowered_sessions(s: Seq<AudioSession>) -> Seq<(u32, Seq<char>)> {
    s.map(|_i, a: AudioSession| (a.pid, lower_of(a.name@)))
}

/// The command for `event` under `config`, with session names and patterns
/// compared in their lower-case forms.
pub open spec fn route_spec(
    event: Slider,
    config: LoadedConfig,
    sessions: Seq<AudioSession>,
    r: Option<VolumeCommand>,
) -> bool {
    let level = level_of_value(event.value as int, config.general.volume_step as int);
    match config.target_of(event.id) {
        None => r is None,
        Some(VolumeTarget::Master) => r == Some(VolumeCommand::SetMaster(level as u32)),
        Some(VolumeTarget::CurrentApp) => r == Some(VolumeCommand::SetCurrentApp(level as u32)),
        Some(VolumeTarget::Apps(apps)) => r is Some && r->0 is SetSessions
            && r->0->SetSessions_level == level
            && r->0->SetSessions_pids@ == selected(lowered_sessions(sessions), lowered(apps@), false),
        Some(VolumeTarget::Unmapped) => r is Some && r->0 is SetSessions
            && r->0->SetSessions_level == level
            && r->0->SetSessions_pids@ == selected(
                lowered_sessions(sessions),
                lowered(config.mapped_apps@),
                true,
            ),
    }
}

/// Whether `needle` occurs in `hay`.
pub fn contains_text(hay: &str, needle: &str) -> (r: bool)
    ensures
        r == is_infix(needle@, hay@),
{
    let h = chars_of(hay);
    let n = chars_of(needle);
    contains_chars(&h, &n)
}

fn chars_of(s: &str) -> (r: Vec<char>)
    ensures
        r@ == s@,
{
    let len = s.unicode_len();
    let mut out: Vec<char> = Vec::new();
    let mut i: usize = 0;
    while i < len
        invariant
            len == s@.len(),
            i <= len,
            out@ == s@.subrange(0, i as int),
        decreases len - i,
    {
        out.push(s.get_char(i));
        assert(s@.subrange(0, i + 1) =~= s@.subrange(0, i as int).push(s@[i as int]));
        i = i + 1;
    }
    assert(s@.subrange(0, len as int) =~= s@);
    out
}

fn contains_chars(hay: &Vec<char>, needle: &Vec<char>) -> (r: bool)
    ensures
        r == is_infix(needle@, hay@),
{
    let h = hay.len();
    let n = needle.len();
    if n > h {
        return false;
    }
    let mut i: usize = 0;
    loop
        invariant
            h == hay@.len(),
            n == needle@.len(),
            n <= h,
            i <= h - n,
            forall|k: int| 0 <= k < i ==> #[trigger] hay@.subrange(k, k + n) != needle@,
        decreases h - n - i,
    {
        let mut j: usize = 0;
        let mut same = true;
        while j < n
            invariant
                h == hay@.len(),
                n == needle@.len(),
                i + n <= h,
                j <= n,
                same ==> forall|m: int| 0 <= m < j ==> hay@[i + m] == needle@[m],
                !same ==> hay@.subrange(i as int, i + n) != needle@,
            decreases n - j,
        {
            if same && hay[i + j] != needle[j] {
                assert(hay@.subrange(i as int, i + n)[j as int] != needle@[j as int]);
                same = false;
            }
            j = j + 1;
        }
        if same {
            assert(hay@.subrange(i as int, i + n) =~= needle@);
            return true;
        }
        if i == h - n {
            assert forall|k: int| 0 <= k && k + n <= h implies #[trigger] hay@.subrange(k, k + n) != needle@ by {
                assert(k <= i);
            }
            return false;
        }
        i = i + 1;
    }
}

/// Some pattern occurs in `name`.
pub fn matches_any_pattern(name: &str, patterns: &Vec<String>) -> (r: bool)
    ensures
        r == matches_any(name@, texts(patterns@)),
{
    let mut k: usize = 0;
    while k < patterns.len()
        invariant
            k <= patterns@.len(),
            forall|m: int| 0 <= m < k ==> !is_infix(#[trigger] texts(patterns@)[m], name@),
        decreases patterns@.len() - k,
    {
        if contains_text(name, patterns[k].as_str()) {
            assert(texts(patterns@)[k as int] == patterns@[k as int]@);
            return true;
        }
        k = k + 1;
    }
    false
}

/// The pids of the sessions whose name contains some pattern (or, with
/// `exclude`, contains none), in session order. Names and patterns are
/// compared exactly as given.
pub fn select_sessions(sessions: &Vec<AudioSession>, patterns: &Vec<String>, exclude: bool) -> (r: Vec<u32>)
    ensures
        r@ == selected(session_names(sessions@), texts(patterns@), exclude),
{
    let mut out: Vec<u32> = Vec::new();
    let mut i: usize = 0;
    while i < sessions.len()
        invariant
            i <= sessions@.len(),
            out@ == selected(session_names(sessions@.subrange(0, i as int)), texts(patterns@), exclude),
        decreases sessions@.len() - i,
    {
        let ghost pre = sessions@.subrange(0, i as int);
        assert(session_names(sessions@.subrange(0, i + 1)).drop_last() =~= session_names(pre));
        assert(session_names(sessions@.subrange(0, i + 1)).last() == (sessions@[i as int].pid, sessions@[i as int].name@));
        if matches_any_pattern(sessions[i].name.as_str(), patterns) != exclude {
            out.push(sessions[i].pid);
        }
        i = i + 1;
    }
    assert(sessions@.subrange(0, sessions@.len() as int) =~= sessions@);
    out
}

fn lowercase_all(s: &Vec<String>) -> (r: Vec<String>)
    ensures
        texts(r@) == lowered(s@),
{
    let mut out: Vec<String> = Vec::new();
    let mut i: usize = 0;
    while i < s.len()
        invariant
            i <= s@.len(),
            texts(out@) == lowered(s@.subrange(0, i as int)),
        decreases s@.len() - i,
    {
        let ghost prev = out@;
        out.push(lowercase(s[i].as_str()));
        assert(texts(out@) =~= texts(prev).push(lower_of(s@[i as int]@)));
        assert(lowered(s@.subrange(0, i + 1)) =~= lowered(s@.subrange(0, i as int)).push(lower_of(s@[i as int]@)));
        i = i + 1;
    }
    assert(s@.subrange(0, s@.len() as int) =~= s@);
    out
}

fn lowercase_sessions(s: &Vec<AudioSession>) -> (r: Vec<AudioSession>)
    ensures
        session_names(r@) == lowered_sessions(s@),
{
    let mut out: Vec<AudioSession> = Vec::new();
    let mut i: usize = 0;
    while i < s.len()
        invariant
            i <= s@.len(),
            session_names(out@) == lowered_sessions(s@.subrange(0, i as int)),
        decreases s@.len() - i,
    {
        let ghost prev = out@;
        let name = lowercase(s[i].name.as_str());
        out.push(AudioSession { pid: s[i].pid, name });
        assert(session_names(out@) =~= session_names(prev).push((s@[i as int].pid, lower_of(s@[i as int].name@))));
        assert(lowered_sessions(s@.subrange(0, i + 1)) =~= lowered_sessions(s@.subrange(0, i as int)).push(
            (s@[i as int].pid, lower_of(s@[i as int].name@)),
        ));
        i = i + 1;
    }
    assert(s@.subrange(0, s@.len() as int) =~= s@);
    out
}

/// The volume command for `event` under `config`, given the sessions the audio
/// backend lists; `None` when the slider is not mapped.
pub fn route(event: Slider, config: &LoadedConfig, sessions: &Vec<AudioSession>) -> (r: Option<VolumeCommand>)
    requires
        config.wf(),
    ensures
        route_spec(event, *config, sessions@, r),
{
    let level = level_for_value(event.value, config.general.volume_step);
    match config.target_for(event.id) {
        None => None,
        Some(VolumeTarget::Master) => Some(VolumeCommand::SetMaster(level)),
        Some(VolumeTarget::CurrentApp) => Some(VolumeCommand::SetCurrentApp(level)),
        Some(VolumeTarget::Apps(apps)) => {
            let names = lowercase_sessions(sessions);
            let patterns = lowercase_all(apps);
            let pids = select_sessions(&names, &patterns, false);
            Some(VolumeCommand::SetSessions { level, pids })
        },
        Some(VolumeTarget::Unmapped) => {
            let names = lowercase_sessions(sessions);
            let patterns = lowercase_all(&config.mapped_apps);
            let pids = select_sessions(&names, &patterns, true);
            Some(VolumeCommand::SetSessions { level, pids })
        },
    }
}

} // verus!
