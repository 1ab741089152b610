//! Channels from a Raven configuration, and their merge with the channels
//! that the radio reports.

use vstd::prelude::*;

use crate::crypto::{
    channel_key_from_proto, channel_key_spec, ChannelKey, ChannelKeyModel,
};
use crate::json::{
    array_view, copy_json, deep_merge, entries_view, json_wf, merge_json, object_get, Json,
    JsonValue,
};
use crate::text::{bytes_equal, str_equal};
use base64::Engine;

verus! {

/// Channel role of the primary channel.
pub const ROLE_PRIMARY: i32 = 1;

/// Channel role of a secondary channel.
pub const ROLE_SECONDARY: i32 = 2;

/// A parsed raven channel: name and raw PSK bytes (before expansion).
pub struct ParsedRavenChannel {
    pub name: String,
    pub psk: Vec<u8>,
}

/// A raven channel as plain values.
pub struct RavenChannelModel {
    pub name: Seq<char>,
    pub psk: Seq<u8>,
}

impl View for ParsedRavenChannel {
    type V = RavenChannelModel;

    open spec fn view(&self) -> RavenChannelModel {
        RavenChannelModel { name: self.name@, psk: self.psk@ }
    }
}

/// The settings of a channel to install on the radio (the `ChannelSettings`
/// protobuf message; the fields left out keep their default values).
pub struct ChannelSettings {
    pub psk: Vec<u8>,
    pub name: String,
}

/// A channel to install on the radio (the `Channel` protobuf message).
pub struct Channel {
    pub index: i32,
    pub role: i32,
    pub settings: Option<ChannelSettings>,
}

/// A channel message as plain values; the settings are `(psk, name)`.
pub struct ChannelModel {
    pub index: i32,
    pub role: i32,
    pub settings: Option<(Seq<u8>, Seq<char>)>,
}

impl View for Channel {
    type V = ChannelModel;

    open spec fn view(&self) -> ChannelModel {
        ChannelModel {
            index: self.index,
            role: self.role,
            settings: match self.settings {
                Some(s) => Some((s.psk@, s.name@)),
                None => None,
            },
        }
    }
}

/// Result of merging device channels with raven channels.
pub struct MergeResult {
    /// The final merged channel list for the bridge to use.
    pub channels: Vec<ChannelKey>,
    /// Channel messages that need to be installed on the device
    /// (new channels or channels with updated PSKs).
    pub to_install: Vec<Channel>,
}

/// The default channel name that the firmware uses for a modem preset.
pub open spec fn preset_name(modem_preset: i32) -> Seq<char> {
    if modem_preset == 1 {
        "LongSlow"@
    } else if modem_preset == 2 {
        "VeryLongSlow"@
    } else if modem_preset == 3 {
        "MediumSlow"@
    } else if modem_preset == 4 {
        "MediumFast"@
    } else if modem_preset == 5 {
        "ShortSlow"@
    } else if modem_preset == 6 {
        "ShortFast"@
    } else if modem_preset == 7 {
        "LongModerate"@
    } else if modem_preset == 8 {
        "ShortTurbo"@
    } else if modem_preset == 9 {
        "LongTurbo"@
    } else {
        "LongFast"@
    }
}

/// Map a modem_preset integer (from LoRaConfig) to the default channel name
/// the firmware uses when the primary channel's name field is empty.
pub fn modem_preset_name(modem_preset: i32) -> (name: &'static str)
    ensures
        name@ == preset_name(modem_preset),
{
    match modem_preset {
        0 => "LongFast",
        1 => "LongSlow",
        2 => "VeryLongSlow",
        3 => "MediumSlow",
        4 => "MediumFast",
        5 => "ShortSlow",
        6 => "ShortFast",
        7 => "LongModerate",
        8 => "ShortTurbo",
        9 => "LongTurbo",
        _ => "LongFast",
    }
}

/// The channel message that installs a channel with this index, role, name and PSK.
pub open spec fn channel_message(index: i32, role: i32, name: Seq<char>, psk: Seq<u8>) -> ChannelModel {
    ChannelModel { index, role, settings: Some((psk, name)) }
}

/// Build the channel message for a channel with this index, role, name and PSK.
pub fn make_channel_proto(index: i32, role: i32, name: &str, psk: &[u8]) -> (c: Channel)
    ensures
        c@ == channel_message(index, role, name@, psk@),
{
    Channel {
        index,
        role,
        settings: Some(ChannelSettings { psk: vstd::slice::slice_to_vec(psk), name: name.to_owned() }),
    }
}

/// A device channel stands for the raven channel named `name`: it has that
/// name, or it is the primary channel reported without a name and `name` is
/// the modem preset's default name.
pub open spec fn is_match(c: ChannelKeyModel, name: Seq<char>, default_name: Seq<char>) -> bool {
    c.name == name || (c.name.len() == 0 && c.index == 0 && name == default_name)
}

/// Position of the first channel that stands for `name`, or the length of
/// the list when there is none.
pub open spec fn first_match(chs: Seq<ChannelKeyModel>, name: Seq<char>, default_name: Seq<char>) -> int
    decreases chs.len(),
{
    if chs.len() == 0 {
        0
    } else {
        let f = first_match(chs.drop_last(), name, default_name);
        if f < chs.len() - 1 {
            f
        } else if is_match(chs.last(), name, default_name) {
            chs.len() - 1
        } else {
            chs.len() as int
        }
    }
}

/// The largest channel index in the list, 0 for an empty list.
pub open spec fn max_index_of(chs: Seq<ChannelKeyModel>) -> int
    decreases chs.len(),
{
    if chs.len() == 0 {
        0
    } else {
        let m = max_index_of(chs.drop_last());
        if chs.last().index > m {
            chs.last().index as int
        } else {
            m
        }
    }
}

/// The state of a merge: the channels so far, the messages to install so
/// far, and the largest index handed out so far.
pub struct MergeModel {
    pub channels: Seq<ChannelKeyModel>,
    pub to_install: Seq<ChannelModel>,
    pub max_index: int,
}

/// The role that a channel keeps when its PSK is updated.
pub open spec fn role_for_index(index: u32) -> i32 {
    if index == 0 {
        ROLE_PRIMARY
    } else {
        ROLE_SECONDARY
    }
}

/// Merging one raven channel: a channel that stands for it takes its PSK
/// (and its name) and is installed again when the key changes; without one,
/// the raven channel is added as SECONDARY at the next free index.
pub open spec fn merge_step(st: MergeModel, rc: RavenChannelModel, default_name: Seq<char>) -> MergeModel {
    let p = first_match(st.channels, rc.name, default_name);
    if p < st.channels.len() {
        let existing = st.channels[p];
        let new_ck = channel_key_spec(existing.index, rc.name, rc.psk);
        if existing.key != new_ck.key {
            MergeModel {
                channels: st.channels.update(p, new_ck),
                to_install: st.to_install.push(
                    channel_message(existing.index as i32, role_for_index(existing.index), rc.name, rc.psk),
                ),
                max_index: st.max_index,
            }
        } else {
            st
        }
    } else {
        let idx = st.max_index + 1;
        MergeModel {
            channels: st.channels.push(channel_key_spec(idx as u32, rc.name, rc.psk)),
            to_install: st.to_install.push(
                channel_message(idx as u32 as i32, ROLE_SECONDARY, rc.name, rc.psk),
            ),
            max_index: idx,
        }
    }
}

/// Merging raven channels one after the other.
pub open spec fn merge_run(st: MergeModel, raven: Seq<RavenChannelModel>, default_name: Seq<char>) -> MergeModel
    decreases raven.len(),
{
    if raven.len() == 0 {
        st
    } else {
        merge_step(merge_run(st, raven.drop_last(), default_name), raven.last(), default_name)
    }
}

/// The merge of raven channels into the device's channels.
pub open spec fn merge_spec(device: Seq<ChannelKeyModel>, raven: Seq<RavenChannelModel>, modem_preset: i32) -> MergeModel {
    merge_run(
        MergeModel { channels: device, to_install: Seq::empty(), max_index: max_index_of(device) },
        raven,
        preset_name(modem_preset),
    )
}

/// The models of a list of channel keys.
pub open spec fn keys_view(v: Seq<ChannelKey>) -> Seq<ChannelKeyModel> {
    v.map_values(|c: ChannelKey| c@)
}

/// The models of a list of raven channels.
pub open spec fn raven_view(v: Seq<ParsedRavenChannel>) -> Seq<RavenChannelModel> {
    v.map_values(|c: ParsedRavenChannel| c@)
}

/// The models of a list of channel messages.
pub open spec fn channels_view(v: Seq<Channel>) -> Seq<ChannelModel> {
    v.map_values(|c: Channel| c@)
}

/// A copy of a channel key.
fn copy_channel_key(c: &ChannelKey) -> (r: ChannelKey)
    ensures
        r@ == c@,
{
    ChannelKey {
        index: c.index,
        name: c.name.clone(),
        key: vstd::slice::slice_to_vec(c.key.as_slice()),
        hash: c.hash,
    }
}

/// Whether the device channel `c` stands for the raven channel named `name`.
fn channel_matches(c: &ChannelKey, name: &String, default_name: &str) -> (r: bool)
    ensures
        r == is_match(c@, name@, default_name@),
{
    if c.name == *name {
        return true;
    }
    c.name.as_str().is_empty() && c.index == 0 && str_equal(name.as_str(), default_name)
}

/// Position of the first channel in `chs` that stands for `name`, or its length.
fn find_match(chs: &Vec<ChannelKey>, name: &String, default_name: &str) -> (p: usize)
    ensures
        p == first_match(keys_view(chs@), name@, default_name@),
{
    let ghost ks = keys_view(chs@);
    let mut i: usize = 0;
    while i < chs.len()
        invariant
            0 <= i <= chs@.len(),
            ks == keys_view(chs@),
            first_match(ks.take(i as int), name@, default_name@) == i,
            forall|k: int| 0 <= k < i ==> !is_match(#[trigger] ks[k], name@, default_name@),
        decreases chs@.len() - i,
    {
        assert(ks.take(i + 1).drop_last() =~= ks.take(i as int));
        if channel_matches(&chs[i], name, default_name) {
            proof {
                lemma_first_match_found(ks, name@, default_name@, i as int);
            }
            return i;
        }
        i = i + 1;
    }
    assert(ks.take(chs@.len() as int) =~= ks);
    proof {
        lemma_first_match_none(ks, name@, default_name@);
    }
    i
}

/// When `i` is the first position that stands for `name`, `first_match` finds it.
proof fn lemma_first_match_found(chs: Seq<ChannelKeyModel>, name: Seq<char>, dn: Seq<char>, i: int)
    requires
        0 <= i < chs.len(),
        is_match(chs[i], name, dn),
        forall|k: int| 0 <= k < i ==> !is_match(#[trigger] chs[k], name, dn),
    ensures
        first_match(chs, name, dn) == i,
    decreases chs.len(),
{
    if i < chs.len() - 1 {
        lemma_first_match_found(chs.drop_last(), name, dn, i);
    } else {
        lemma_first_match_none(chs.drop_last(), name, dn);
    }
}

/// With no position that stands for `name`, `first_match` gives the length.
proof fn lemma_first_match_none(chs: Seq<ChannelKeyModel>, name: Seq<char>, dn: Seq<char>)
    requires
        forall|k: int| 0 <= k < chs.len() ==> !is_match(#[trigger] chs[k], name, dn),
    ensures
        first_match(chs, name, dn) == chs.len(),
    decreases chs.len(),
{
    if chs.len() > 0 {
        lemma_first_match_none(chs.drop_last(), name, dn);
    }
}

/// `first_match` gives a position that stands for `name` with none before
/// it, or the length of the list when there is none.
pub proof fn lemma_first_match_spec(chs: Seq<ChannelKeyModel>, name: Seq<char>, dn: Seq<char>)
    ensures
        0 <= first_match(chs, name, dn) <= chs.len(),
        first_match(chs, name, dn) < chs.len() ==> is_match(chs[first_match(chs, name, dn)], name, dn),
        forall|k: int| 0 <= k < first_match(chs, name, dn) ==> !is_match(#[trigger] chs[k], name, dn),
    decreases chs.len(),
{
    if chs.len() > 0 {
        lemma_first_match_spec(chs.drop_last(), name, dn);
        let f = first_match(chs, name, dn);
        assert forall|k: int| 0 <= k < f implies !is_match(#[trigger] chs[k], name, dn) by {
            if k < chs.len() - 1 {
                assert(chs[k] == chs.drop_last()[k]);
            }
        }
    }
}

/// The largest index among the channels, 0 for none.
fn max_channel_index(chs: &[ChannelKey]) -> (m: u32)
    ensures
        m == max_index_of(keys_view(chs@)),
{
    let ghost ks = keys_view(chs@);
    let mut m: u32 = 0;
    let mut i: usize = 0;
    while i < chs.len()
        invariant
            0 <= i <= chs@.len(),
            ks == keys_view(chs@),
            m == max_index_of(ks.take(i as int)),
        decreases chs@.len() - i,
    {
        assert(ks.take(i + 1).drop_last() =~= ks.take(i as int));
        if chs[i].index > m {
            m = chs[i].index;
        }
        i = i + 1;
    }
    assert(ks.take(chs@.len() as int) =~= ks);
    m
}

/// The largest index handed out never goes down as raven channels are merged.
proof fn lemma_merge_run_max_monotone(st: MergeModel, raven: Seq<RavenChannelModel>, dn: Seq<char>, k: int)
    requires
        0 <= k <= raven.len(),
    ensures
        st.max_index <= merge_run(st, raven.take(k), dn).max_index <= merge_run(st, raven, dn).max_index,
    decreases raven.len(),
{
    if raven.len() > 0 {
        if k == raven.len() {
            assert(raven.take(k) =~= raven);
            lemma_merge_run_max_monotone(st, raven.drop_last(), dn, raven.len() - 1);
            assert(raven.drop_last().take(raven.len() - 1) =~= raven.drop_last());
        } else {
            lemma_merge_run_max_monotone(st, raven.drop_last(), dn, k);
            assert(raven.drop_last().take(k) =~= raven.take(k));
        }
    } else {
        assert(raven.take(k) =~= raven);
    }
}

/// Merge device-reported channels with raven-sourced channels, or `None`
/// when a new channel's index would not fit in a `u32`.
/// Duplicates (by name) prefer the raven version's PSK.
/// New raven channels are assigned as SECONDARY at the next available index.
/// `modem_preset` is used to resolve the default primary channel name when the
/// device reports it as empty (which is standard Meshtastic behavior).
pub fn merge_channels_checked(
    device_channels: &[ChannelKey],
    raven_channels: &[ParsedRavenChannel],
    modem_preset: i32,
) -> (res: Option<MergeResult>)
    ensures
        res is None <==> merge_spec(keys_view(device_channels@), raven_view(raven_channels@), modem_preset).max_index
            > u32::MAX,
        res matches Some(m) ==> keys_view(m.channels@) == merge_spec(
            keys_view(device_channels@),
            raven_view(raven_channels@),
            modem_preset,
        ).channels,
        res matches Some(m) ==> channels_view(m.to_install@) == merge_spec(
            keys_view(device_channels@),
            raven_view(raven_channels@),
            modem_preset,
        ).to_install,
{
    let ghost dev = keys_view(device_channels@);
    let ghost rav = raven_view(raven_channels@);
    let ghost st0 = MergeModel { channels: dev, to_install: Seq::empty(), max_index: max_index_of(dev) };
    let mut merged: Vec<ChannelKey> = Vec::new();
    let mut d: usize = 0;
    while d < device_channels.len()
        invariant
            0 <= d <= device_channels@.len(),
            dev == keys_view(device_channels@),
            keys_view(merged@) == dev.take(d as int),
        decreases device_channels@.len() - d,
    {
        let c = copy_channel_key(&device_channels[d]);
        let ghost before = merged@;
        merged.push(c);
        assert(merged@ == before.push(c));
        assert(keys_view(merged@) =~= keys_view(before).push(c@));
        d = d + 1;
        assert(keys_view(merged@) =~= dev.take(d as int));
    }
    assert(dev.take(device_channels@.len() as int) =~= dev);
    let mut to_install: Vec<Channel> = Vec::new();
    let mut max_index = max_channel_index(device_channels);
    let default_name = modem_preset_name(modem_preset);
    assert(keys_view(merged@) == st0.channels);
    assert(channels_view(to_install@) =~= st0.to_install);
    assert(rav.take(0) =~= Seq::<RavenChannelModel>::empty());

    let mut r: usize = 0;
    while r < raven_channels.len()
        invariant
            0 <= r <= raven_channels@.len(),
            rav == raven_view(raven_channels@),
            dev == keys_view(device_channels@),
            st0 == (MergeModel { channels: dev, to_install: Seq::empty(), max_index: max_index_of(dev) }),
            default_name@ == preset_name(modem_preset),
            keys_view(merged@) == merge_run(st0, rav.take(r as int), default_name@).channels,
            channels_view(to_install@) == merge_run(st0, rav.take(r as int), default_name@).to_install,
            max_index as int == merge_run(st0, rav.take(r as int), default_name@).max_index,
        decreases raven_channels@.len() - r,
    {
        let ghost st = merge_run(st0, rav.take(r as int), default_name@);
        assert(rav.take(r + 1).drop_last() =~= rav.take(r as int));
        assert(rav.take(r + 1).last() == raven_channels@[r as int]@);
        let rc = &raven_channels[r];
        let p = find_match(&merged, &rc.name, default_name);
        if p < merged.len() {
            let existing_index = merged[p].index;
            let new_ck = channel_key_from_proto(existing_index, rc.name.as_str(), rc.psk.as_slice());
            if !bytes_equal(merged[p].key.as_slice(), new_ck.key.as_slice()) {
                let role = if existing_index == 0 { ROLE_PRIMARY } else { ROLE_SECONDARY };
                to_install.push(
                    make_channel_proto(existing_index as i32, role, rc.name.as_str(), rc.psk.as_slice()),
                );
                merged[p] = new_ck;
                assert(keys_view(merged@) =~= st.channels.update(p as int, new_ck@));
                assert(channels_view(to_install@) =~= st.to_install.push(
                    channel_message(existing_index as i32, role, rc.name@, rc.psk@),
                ));
            }
        } else {
            max_index = match max_index.checked_add(1) {
                Some(m) => m,
                None => {
                    proof {
                        lemma_merge_run_max_monotone(st0, rav, default_name@, r + 1);
                    }
                    return None;
                },
            };
            let ck = channel_key_from_proto(max_index, rc.name.as_str(), rc.psk.as_slice());
            to_install.push(
                make_channel_proto(max_index as i32, ROLE_SECONDARY, rc.name.as_str(), rc.psk.as_slice()),
            );
            merged.push(ck);
            assert(keys_view(merged@) =~= st.channels.push(ck@));
            assert(channels_view(to_install@) =~= st.to_install.push(
                channel_message(max_index as i32, ROLE_SECONDARY, rc.name@, rc.psk@),
            ));
        }
        r = r + 1;
    }
    assert(rav.take(raven_channels@.len() as int) =~= rav);
    Some(MergeResult { channels: merged, to_install })
}

/// Merge device-reported channels with raven-sourced channels.
/// Duplicates (by name) prefer the raven version's PSK.
/// New raven channels are assigned as SECONDARY at the next available index.
/// `modem_preset` is used to resolve the default primary channel name when the
/// device reports it as empty (which is standard Meshtastic behavior).
pub fn merge_channels(
    device_channels: &[ChannelKey],
    raven_channels: &[ParsedRavenChannel],
    modem_preset: i32,
) -> (res: MergeResult)
    requires
        merge_spec(keys_view(device_channels@), raven_view(raven_channels@), modem_preset).max_index
            <= u32::MAX,
    ensures
        keys_view(res.channels@) == merge_spec(
            keys_view(device_channels@),
            raven_view(raven_channels@),
            modem_preset,
        ).channels,
        channels_view(res.to_install@) == merge_spec(
            keys_view(device_channels@),
            raven_view(raven_channels@),
            modem_preset,
        ).to_install,
{
    match merge_channels_checked(device_channels, raven_channels, modem_preset) {
        Some(m) => m,
        None => vstd::pervasive::unreached(),
    }
}

/// Merging no raven channels keeps the device's channels and installs nothing.
pub proof fn lemma_merge_no_raven(device: Seq<ChannelKeyModel>, modem_preset: i32)
    ensures
        merge_spec(device, Seq::empty(), modem_preset).channels == device,
        merge_spec(device, Seq::empty(), modem_preset).to_install.len() == 0,
{
}

/// What every state of a merge of raven channels into `device` keeps: the
/// device's channels stay at their positions with their indices, every added
/// channel has the next index above the device's largest one, and every
/// message to install has settings and the PRIMARY role exactly for index 0.
pub open spec fn merge_shape(st: MergeModel, device: Seq<ChannelKeyModel>) -> bool {
    let base = max_index_of(device);
    &&& base <= st.max_index
    &&& st.channels.len() == device.len() + (st.max_index - base)
    &&& forall|i: int| 0 <= i < device.len() ==> #[trigger] st.channels[i].index == device[i].index
    &&& forall|i: int|
        device.len() <= i < st.channels.len() ==> #[trigger] st.channels[i].index == base + (i - device.len()) + 1
    &&& forall|t: int|
        0 <= t < st.to_install.len() ==> {
            let m = #[trigger] st.to_install[t];
            &&& m.settings is Some
            &&& (m.role == ROLE_PRIMARY || m.role == ROLE_SECONDARY)
            &&& (m.role == ROLE_PRIMARY <==> m.index == 0)
        }
}

proof fn lemma_index_cast_zero(x: u32)
    ensures
        (x as i32 == 0) <==> (x == 0),
{
    assert((x as i32 == 0) <==> (x == 0)) by (bit_vector);
}

proof fn lemma_max_index_of_bounds(chs: Seq<ChannelKeyModel>)
    ensures
        0 <= max_index_of(chs) <= u32::MAX,
        forall|i: int| 0 <= i < chs.len() ==> #[trigger] chs[i].index <= max_index_of(chs),
    decreases chs.len(),
{
    if chs.len() > 0 {
        lemma_max_index_of_bounds(chs.drop_last());
        assert forall|i: int| 0 <= i < chs.len() implies #[trigger] chs[i].index <= max_index_of(chs) by {
            if i < chs.len() - 1 {
                assert(chs[i] == chs.drop_last()[i]);
            }
        }
    }
}

proof fn lemma_merge_run_shape(device: Seq<ChannelKeyModel>, raven: Seq<RavenChannelModel>, dn: Seq<char>)
    requires
        merge_run(
            MergeModel { channels: device, to_install: Seq::empty(), max_index: max_index_of(device) },
            raven,
            dn,
        ).max_index <= u32::MAX,
    ensures
        merge_shape(
            merge_run(
                MergeModel { channels: device, to_install: Seq::empty(), max_index: max_index_of(device) },
                raven,
                dn,
            ),
            device,
        ),
        merge_run(
            MergeModel { channels: device, to_install: Seq::empty(), max_index: max_index_of(device) },
            raven,
            dn,
        ).max_index <= max_index_of(device) + raven.len(),
    decreases raven.len(),
{
    let st0 = MergeModel { channels: device, to_install: Seq::empty(), max_index: max_index_of(device) };
    lemma_max_index_of_bounds(device);
    if raven.len() > 0 {
        lemma_merge_run_max_monotone(st0, raven, dn, raven.len() - 1);
        assert(raven.take(raven.len() - 1) =~= raven.drop_last());
        lemma_merge_run_shape(device, raven.drop_last(), dn);
        let st = merge_run(st0, raven.drop_last(), dn);
        let rc = raven.last();
        let p = first_match(st.channels, rc.name, dn);
        let next = merge_step(st, rc, dn);
        if p < st.channels.len() {
            lemma_first_match_spec(st.channels, rc.name, dn);
            let existing = st.channels[p];
            if p < device.len() {
                assert(existing.index == device[p].index);
            }
            lemma_index_cast_zero(existing.index);
            assert forall|t: int| 0 <= t < next.to_install.len() implies {
                let m = #[trigger] next.to_install[t];
                &&& m.settings is Some
                &&& (m.role == ROLE_PRIMARY || m.role == ROLE_SECONDARY)
                &&& (m.role == ROLE_PRIMARY <==> m.index == 0)
            } by {
                if t < st.to_install.len() {
                    assert(next.to_install[t] == st.to_install[t]);
                }
            }
        } else {
            let idx = st.max_index + 1;
            assert(1 <= idx <= u32::MAX);
            lemma_index_cast_zero(idx as u32);
            assert forall|t: int| 0 <= t < next.to_install.len() implies {
                let m = #[trigger] next.to_install[t];
                &&& m.settings is Some
                &&& (m.role == ROLE_PRIMARY || m.role == ROLE_SECONDARY)
                &&& (m.role == ROLE_PRIMARY <==> m.index == 0)
            } by {
                if t < st.to_install.len() {
                    assert(next.to_install[t] == st.to_install[t]);
                }
            }
            assert forall|i: int| 0 <= i < device.len() implies #[trigger] next.channels[i].index
                == device[i].index by {
                assert(next.channels[i] == st.channels[i]);
            }
            assert forall|i: int| device.len() <= i < next.channels.len() implies #[trigger] next.channels[i].index
                == max_index_of(device) + (i - device.len()) + 1 by {
                if i < st.channels.len() {
                    assert(next.channels[i] == st.channels[i]);
                }
            }
        }
    }
}

/// The shape of every merge: the device's channels keep their positions and
/// indices, each raven channel that matches no channel is appended with the
/// next index above the device's largest (so at most one new index per raven
/// channel), and every message to install carries settings, with the
/// PRIMARY role exactly for index 0 and the SECONDARY role otherwise.
pub proof fn lemma_merge_shape(device: Seq<ChannelKeyModel>, raven: Seq<RavenChannelModel>, modem_preset: i32)
    requires
        merge_spec(device, raven, modem_preset).max_index <= u32::MAX,
    ensures
        merge_shape(merge_spec(device, raven, modem_preset), device),
        merge_spec(device, raven, modem_preset).max_index <= max_index_of(device) + raven.len(),
{
    lemma_merge_run_shape(device, raven, preset_name(modem_preset));
}

/// The raven version wins at every step: right after a raven channel is
/// merged, some channel stands for it and holds its expanded PSK.
pub proof fn lemma_merge_step_raven_key(st: MergeModel, rc: RavenChannelModel, default_name: Seq<char>)
    ensures
        exists|j: int|
            0 <= j < merge_step(st, rc, default_name).channels.len() && is_match(
                #[trigger] merge_step(st, rc, default_name).channels[j],
                rc.name,
                default_name,
            ) && merge_step(st, rc, default_name).channels[j].key == crate::crypto::expanded_key(rc.psk),
{
    let p = first_match(st.channels, rc.name, default_name);
    let res = merge_step(st, rc, default_name);
    lemma_first_match_spec(st.channels, rc.name, default_name);
    let j = if p < st.channels.len() { p } else { st.channels.len() as int };
    assert(is_match(res.channels[j], rc.name, default_name));
    assert(res.channels[j].key == crate::crypto::expanded_key(rc.psk));
}

/// After a whole merge, the channel that the last raven channel was merged
/// into stands for it and holds its expanded PSK.
pub proof fn lemma_merge_last_raven_key(device: Seq<ChannelKeyModel>, raven: Seq<RavenChannelModel>, modem_preset: i32)
    requires
        raven.len() > 0,
    ensures
        exists|j: int|
            0 <= j < merge_spec(device, raven, modem_preset).channels.len() && is_match(
                #[trigger] merge_spec(device, raven, modem_preset).channels[j],
                raven.last().name,
                preset_name(modem_preset),
            ) && merge_spec(device, raven, modem_preset).channels[j].key == crate::crypto::expanded_key(
                raven.last().psk,
            ),
{
    let dn = preset_name(modem_preset);
    let st0 = MergeModel { channels: device, to_install: Seq::empty(), max_index: max_index_of(device) };
    let st = merge_run(st0, raven.drop_last(), dn);
    assert(merge_spec(device, raven, modem_preset) == merge_step(st, raven.last(), dn));
    lemma_merge_step_raven_key(st, raven.last(), dn);
}

/// Why a namekey could not be parsed.
#[derive(Debug, PartialEq, Eq, Structural)]
pub enum NamekeyError {
    /// There is no space between the name and the base64 PSK.
    NoSeparator,
    /// The text after the last space is not valid standard base64.
    InvalidBase64,
}

/// Why a Raven configuration gave no channel list.
#[derive(Debug, PartialEq, Eq, Structural)]
pub enum RavenError {
    /// The configuration does not have the shape of a Raven configuration.
    InvalidConfig,
    /// A channel's namekey could not be parsed.
    InvalidNamekey(NamekeyError),
}

/// The bytes that standard base64 (with canonical padding) decodes the input
/// to, or `None` when the input is not valid standard base64.
pub uninterp spec fn base64_decode(input: Seq<u8>) -> Option<Seq<u8>>;

#[verifier::external_type_specification]
#[verifier::external_body]
pub struct ExDecodeError(base64::DecodeError);

/// `base64::engine::general_purpose::STANDARD.decode`: the decoded bytes,
/// or an error exactly when the input is not valid standard base64; a
/// function of the input alone.
#[verifier::external_body]
fn base64_standard_decode(input: &[u8]) -> (r: Result<Vec<u8>, base64::DecodeError>)
    ensures
        r is Ok == base64_decode(input@) is Some,
        r matches Ok(v) ==> v@ == base64_decode(input@)->0,
{
    base64::engine::general_purpose::STANDARD.decode(input)
}

/// Position of the last space byte, or -1 when there is none.
pub open spec fn last_space(bytes: Seq<u8>) -> int
    decreases bytes.len(),
{
    if bytes.len() == 0 {
        -1
    } else if bytes.last() == 0x20u8 {
        bytes.len() - 1
    } else {
        last_space(bytes.drop_last())
    }
}

/// A namekey `"name base64psk"` (UTF-8 bytes) split at its last space: the
/// name before it, and the PSK that the base64 text after it decodes to.
pub open spec fn parse_namekey_spec(bytes: Seq<u8>) -> Result<RavenChannelModel, NamekeyError> {
    let p = last_space(bytes);
    if p < 0 {
        Err(NamekeyError::NoSeparator)
    } else {
        match base64_decode(bytes.skip(p + 1)) {
            Some(psk) => Ok(
                RavenChannelModel { name: vstd::utf8::decode_utf8(bytes.take(p)), psk },
            ),
            None => Err(NamekeyError::InvalidBase64),
        }
    }
}

/// The model of a parse result.
pub open spec fn parsed_view(r: Result<ParsedRavenChannel, NamekeyError>) -> Result<RavenChannelModel, NamekeyError> {
    match r {
        Ok(c) => Ok(c@),
        Err(e) => Err(e),
    }
}

proof fn lemma_last_space(bytes: Seq<u8>)
    ensures
        -1 <= last_space(bytes) < bytes.len(),
        last_space(bytes) >= 0 ==> bytes[last_space(bytes)] == 0x20u8,
        forall|j: int| last_space(bytes) < j < bytes.len() ==> bytes[j] != 0x20u8,
    decreases bytes.len(),
{
    if bytes.len() > 0 && bytes.last() != 0x20u8 {
        lemma_last_space(bytes.drop_last());
        assert forall|j: int| last_space(bytes) < j < bytes.len() implies bytes[j] != 0x20u8 by {
            if j < bytes.len() - 1 {
                assert(bytes.drop_last()[j] == bytes[j]);
            }
        }
    }
}

/// An ASCII byte of valid UTF-8 starts a character.
proof fn lemma_ascii_is_char_boundary(bytes: Seq<u8>, i: int)
    requires
        vstd::utf8::valid_utf8(bytes),
        0 <= i < bytes.len(),
        bytes[i] <= 0x7f,
    ensures
        vstd::utf8::is_char_boundary(bytes, i),
    decreases bytes.len(),
{
    if i > 0 {
        let l = vstd::utf8::length_of_first_scalar(bytes);
        assert(1 <= l <= 4);
        assert(i >= l);
        let rest = vstd::utf8::pop_first_scalar(bytes);
        assert(rest[i - l] == bytes[i]);
        lemma_ascii_is_char_boundary(rest, i - l);
    }
}

/// Build the parsed channel from the name and the result of decoding the
/// base64 PSK.
pub fn channel_from_decoded(name: &str, decoded: Result<Vec<u8>, base64::DecodeError>) -> (r: Result<
    ParsedRavenChannel,
    NamekeyError,
>)
    ensures
        decoded matches Ok(psk) ==> r matches Ok(c) && c@ == (RavenChannelModel { name: name@, psk: psk@ }),
        decoded is Err ==> r == Err::<ParsedRavenChannel, NamekeyError>(NamekeyError::InvalidBase64),
{
    match decoded {
        Ok(psk) => Ok(ParsedRavenChannel { name: name.to_owned(), psk }),
        Err(_) => Err(NamekeyError::InvalidBase64),
    }
}

/// Parse a "name base64psk" namekey string into name and raw PSK bytes.
pub fn parse_namekey(namekey: &str) -> (r: Result<ParsedRavenChannel, NamekeyError>)
    ensures
        parsed_view(r) == parse_namekey_spec(vstd::utf8::encode_utf8(namekey@)),
{
    let bytes = namekey.as_bytes();
    proof {
        lemma_last_space(bytes@);
    }
    let mut i: usize = bytes.len();
    while i > 0 && bytes[i - 1] != 0x20u8
        invariant
            0 <= i <= bytes@.len(),
            bytes@ == vstd::utf8::encode_utf8(namekey@),
            last_space(bytes@) < i,
            -1 <= last_space(bytes@) < bytes@.len(),
            last_space(bytes@) >= 0 ==> bytes@[last_space(bytes@)] == 0x20u8,
            forall|j: int| last_space(bytes@) < j < bytes@.len() ==> bytes@[j] != 0x20u8,
        decreases i,
    {
        i = i - 1;
    }
    if i == 0 {
        return Err(NamekeyError::NoSeparator);
    }
    let p = i - 1;
    assert(last_space(bytes@) == p);
    proof {
        vstd::utf8::encode_utf8_valid_utf8(namekey@);
        lemma_ascii_is_char_boundary(bytes@, p as int);
    }
    let (name, _) = namekey.split_at(p);
    let b64 = &bytes[p + 1..bytes.len()];
    assert(b64@ =~= bytes@.skip(p + 1));
    proof {
        vstd::utf8::encode_utf8_decode_utf8(name@);
        assert(vstd::utf8::encode_utf8(name@) =~= bytes@.take(p as int));
    }
    channel_from_decoded(name, base64_standard_decode(b64))
}

/// The namekey of one channel entry, as `serde` reads the `RavenChannel`
/// struct from it: from an object, its `"namekey"` string; from an array of
/// exactly one string, that string; anything else is an error.
pub open spec fn entry_namekey(item: Json) -> Option<Seq<char>> {
    match item {
        Json::Object(m) => {
            if m.dom().contains("namekey"@) && m["namekey"@] is Str {
                Some(m["namekey"@]->Str_0)
            } else {
                None
            }
        },
        Json::Array(xs) => {
            if xs.len() == 1 && xs[0] is Str {
                Some(xs[0]->Str_0)
            } else {
                None
            }
        },
        _ => None,
    }
}

/// The namekeys of a channel list: an array whose every entry has a namekey.
pub open spec fn channel_namekeys(v: Json) -> Option<Seq<Seq<char>>> {
    match v {
        Json::Array(items) => {
            if forall|i: int| 0 <= i < items.len() ==> #[trigger] entry_namekey(items[i]) is Some {
                Some(Seq::new(items.len(), |i: int| entry_namekey(items[i])->0))
            } else {
                None
            }
        },
        _ => None,
    }
}

/// The channels' namekeys, as `serde` reads the `RavenConfig` struct from a
/// configuration: from an object, its `"channels"` list (none when the key
/// is missing); from an array, its only element as the list (none for an
/// empty array); anything else is an error.
pub open spec fn config_namekeys(v: Json) -> Option<Seq<Seq<char>>> {
    match v {
        Json::Object(m) => {
            if m.dom().contains("channels"@) {
                channel_namekeys(m["channels"@])
            } else {
                Some(Seq::empty())
            }
        },
        Json::Array(xs) => {
            if xs.len() == 0 {
                Some(Seq::empty())
            } else if xs.len() == 1 {
                channel_namekeys(xs[0])
            } else {
                None
            }
        },
        _ => None,
    }
}

/// Parsing every namekey in order; the first failure is the result.
pub open spec fn parse_all(nks: Seq<Seq<char>>) -> Result<Seq<RavenChannelModel>, NamekeyError>
    decreases nks.len(),
{
    if nks.len() == 0 {
        Ok(Seq::empty())
    } else {
        match parse_all(nks.drop_last()) {
            Err(e) => Err(e),
            Ok(cs) => match parse_namekey_spec(vstd::utf8::encode_utf8(nks.last())) {
                Ok(c) => Ok(cs.push(c)),
                Err(e) => Err(e),
            },
        }
    }
}

/// The configuration with the override, when it is an object, deep-merged
/// into it.
pub open spec fn merged_config(base: Json, over: Option<Json>) -> Json {
    match over {
        Some(o) => if o is Object {
            merge_json(base, o)
        } else {
            base
        },
        None => base,
    }
}

/// The channels of a Raven configuration: none without a base
/// configuration; otherwise the override, when it is an object, deep-merged
/// into the base, then the configuration's channel namekeys, parsed.
pub open spec fn load_spec(base: Option<Json>, over: Option<Json>) -> Result<Option<Seq<RavenChannelModel>>, RavenError> {
    match base {
        None => Ok(None),
        Some(b) => {
            let cfg = merged_config(b, over);
            match config_namekeys(cfg) {
                None => Err(RavenError::InvalidConfig),
                Some(nks) => match parse_all(nks) {
                    Ok(cs) => Ok(Some(cs)),
                    Err(e) => Err(RavenError::InvalidNamekey(e)),
                },
            }
        },
    }
}

/// The model of an optional JSON value.
pub open spec fn opt_json(v: Option<JsonValue>) -> Option<Json> {
    match v {
        Some(j) => Some(j@),
        None => None,
    }
}

/// The model of an optional borrowed JSON value.
pub open spec fn opt_json_ref(v: Option<&JsonValue>) -> Option<Json> {
    match v {
        Some(j) => Some(j@),
        None => None,
    }
}

/// The model of a load result.
pub open spec fn load_view(r: Result<Option<Vec<ParsedRavenChannel>>, RavenError>) -> Result<
    Option<Seq<RavenChannelModel>>,
    RavenError,
> {
    match r {
        Ok(Some(v)) => Ok(Some(raven_view(v@))),
        Ok(None) => Ok(None),
        Err(e) => Err(e),
    }
}

/// The namekey of one channel entry.
fn entry_namekey_of(item: &JsonValue) -> (r: Option<String>)
    ensures
        entry_namekey(item@) == (match r {
            Some(s) => Some(s@),
            None => None::<Seq<char>>,
        }),
{
    match item {
        JsonValue::Object(entries) => match object_get(entries, "namekey") {
            Some(JsonValue::Str(s)) => Some(s.clone()),
            _ => None,
        },
        JsonValue::Array(xs) => {
            proof {
                crate::json::lemma_array_view_items(xs@);
            }
            if xs.len() == 1 {
                match &xs[0] {
                    JsonValue::Str(s) => Some(s.clone()),
                    _ => None,
                }
            } else {
                None
            }
        },
        _ => None,
    }
}

/// The namekeys of a channel list.
fn channel_namekeys_of(v: &JsonValue) -> (r: Option<Vec<String>>)
    ensures
        channel_namekeys(v@) == (match r {
            Some(ks) => Some(ks@.map_values(|s: String| s@)),
            None => None::<Seq<Seq<char>>>,
        }),
{
    match v {
        JsonValue::Array(items) => {
            let ghost models = array_view(items@);
            proof {
                crate::json::lemma_array_view_items(items@);
            }
            let mut out: Vec<String> = Vec::new();
            let mut i: usize = 0;
            while i < items.len()
                invariant
                    0 <= i <= items@.len(),
                    models == array_view(items@),
                    v@ == Json::Array(models),
                    models.len() == items@.len(),
                    forall|j: int| 0 <= j < items@.len() ==> #[trigger] models[j] == items@[j]@,
                    out@.len() == i,
                    forall|j: int| 0 <= j < i ==> entry_namekey(#[trigger] models[j]) == Some(out@[j]@),
                decreases items@.len() - i,
            {
                match entry_namekey_of(&items[i]) {
                    Some(k) => {
                        out.push(k);
                    },
                    None => {
                        assert(v@ == Json::Array(models));
                        assert(entry_namekey(models[i as int]) is None);
                        return None;
                    },
                }
                i = i + 1;
            }
            assert(v@ == Json::Array(models));
            assert(out@.map_values(|s: String| s@) =~= Seq::new(
                models.len(),
                |j: int| entry_namekey(models[j])->0,
            ));
            Some(out)
        },
        _ => None,
    }
}

/// The channels' namekeys in a Raven configuration.
pub fn config_namekeys_of(config: &JsonValue) -> (r: Option<Vec<String>>)
    ensures
        config_namekeys(config@) == (match r {
            Some(ks) => Some(ks@.map_values(|s: String| s@)),
            None => None::<Seq<Seq<char>>>,
        }),
{
    match config {
        JsonValue::Object(entries) => match object_get(entries, "channels") {
            Some(chs) => channel_namekeys_of(chs),
            None => {
                let out: Vec<String> = Vec::new();
                assert(out@.map_values(|s: String| s@) =~= Seq::<Seq<char>>::empty());
                Some(out)
            },
        },
        JsonValue::Array(xs) => {
            proof {
                crate::json::lemma_array_view_items(xs@);
            }
            if xs.len() == 0 {
                let out: Vec<String> = Vec::new();
                assert(out@.map_values(|s: String| s@) =~= Seq::<Seq<char>>::empty());
                Some(out)
            } else if xs.len() == 1 {
                channel_namekeys_of(&xs[0])
            } else {
                None
            }
        },
        _ => None,
    }
}

/// Load the channels of a Raven configuration: `base` is the parsed
/// configuration (`None` when there is none), `override_val` the parsed
/// override (`None` when there is none), which is deep-merged on top when it
/// is an object. Fails on a configuration of the wrong shape or a namekey
/// that does not parse.
pub fn load_raven_channels(base: Option<JsonValue>, override_val: Option<&JsonValue>) -> (r: Result<
    Option<Vec<ParsedRavenChannel>>,
    RavenError,
>)
    requires
        override_val matches Some(o) ==> json_wf(*o),
    ensures
        load_view(r) == load_spec(opt_json(base), opt_json_ref(override_val)),
{
    let mut config = match base {
        Some(b) => b,
        None => {
            return Ok(None);
        },
    };
    let ghost b0 = config@;
    match override_val {
        Some(o) => {
            if matches!(o, JsonValue::Object(_)) {
                deep_merge(&mut config, o);
            }
        },
        None => {},
    }
    let ghost cfg = config@;
    let namekeys = match config_namekeys_of(&config) {
        Some(ks) => ks,
        None => {
            return Err(RavenError::InvalidConfig);
        },
    };
    let ghost nks = namekeys@.map_values(|s: String| s@);
    let mut channels: Vec<ParsedRavenChannel> = Vec::new();
    let mut i: usize = 0;
    assert(nks.take(0) =~= Seq::<Seq<char>>::empty());
    assert(raven_view(channels@) =~= Seq::<RavenChannelModel>::empty());
    while i < namekeys.len()
        invariant
            0 <= i <= namekeys@.len(),
            nks == namekeys@.map_values(|s: String| s@),
            config_namekeys(cfg) == Some(nks),
            load_spec(opt_json(base), opt_json_ref(override_val)) == (match parse_all(nks) {
                Ok(cs) => Ok(Some(cs)),
                Err(e) => Err(RavenError::InvalidNamekey(e)),
            }),
            parse_all(nks.take(i as int)) == Ok::<Seq<RavenChannelModel>, NamekeyError>(raven_view(channels@)),
        decreases namekeys@.len() - i,
    {
        proof {
            assert(nks.take(i + 1).drop_last() =~= nks.take(i as int));
            assert(nks.take(i + 1).last() == namekeys@[i as int]@);
        }
        match parse_namekey(namekeys[i].as_str()) {
            Ok(c) => {
                let ghost before = channels@;
                channels.push(c);
                assert(raven_view(channels@) =~= raven_view(before).push(c@));
            },
            Err(e) => {
                proof {
                    lemma_parse_all_error_stays(nks, i as int + 1);
                }
                return Err(RavenError::InvalidNamekey(e));
            },
        }
        i = i + 1;
    }
    assert(nks.take(namekeys@.len() as int) =~= nks);
    Ok(Some(channels))
}

/// Once parsing a prefix fails, parsing the whole list fails the same way.
proof fn lemma_parse_all_error_stays(nks: Seq<Seq<char>>, k: int)
    requires
        0 <= k <= nks.len(),
        parse_all(nks.take(k)) is Err,
    ensures
        parse_all(nks) == parse_all(nks.take(k)),
    decreases nks.len(),
{
    if k == nks.len() {
        assert(nks.take(k) =~= nks);
    } else {
        assert(nks.drop_last().take(k) =~= nks.take(k));
        lemma_parse_all_error_stays(nks.drop_last(), k);
    }
}

/// Load the channels of a Raven configuration without an override.
pub fn load_raven_channels_from(base: Option<JsonValue>) -> (r: Result<Option<Vec<ParsedRavenChannel>>, RavenError>)
    ensures
        load_view(r) == load_spec(opt_json(base), None),
{
    load_raven_channels(base, None)
}

/// The raven channel `rc` is settled in `chs`: the first channel that stands
/// for it holds its expanded PSK.
pub open spec fn settled(chs: Seq<ChannelKeyModel>, rc: RavenChannelModel, default_name: Seq<char>) -> bool {
    let j = first_match(chs, rc.name, default_name);
    j < chs.len() && chs[j].key == crate::crypto::expanded_key(rc.psk)
}

/// A raven channel is settled right after it is merged.
proof fn lemma_step_settles(st: MergeModel, rc: RavenChannelModel, dn: Seq<char>)
    ensures
        settled(merge_step(st, rc, dn).channels, rc, dn),
        merge_step(st, rc, dn).to_install != st.to_install ==> ({
            let next = merge_step(st, rc, dn).channels;
            let j = first_match(next, rc.name, dn);
            &&& next[j].index as i32 == merge_step(st, rc, dn).to_install.last().index
            &&& next[j].name == rc.name
        }),
{
    let p = first_match(st.channels, rc.name, dn);
    lemma_first_match_spec(st.channels, rc.name, dn);
    let next = merge_step(st, rc, dn).channels;
    let j = if p < st.channels.len() { p } else { st.channels.len() as int };
    assert forall|k: int| 0 <= k < j implies !is_match(#[trigger] next[k], rc.name, dn) by {
        assert(next[k] == st.channels[k]);
    }
    if p < st.channels.len() && st.channels[p].key == crate::crypto::expanded_key(rc.psk) {
        assert(next == st.channels);
    }
    lemma_first_match_found(next, rc.name, dn, j);
}

/// Merging a raven channel with another non-empty name leaves a settled
/// raven channel with a non-empty name settled.
proof fn lemma_step_keeps_settled(st: MergeModel, rc: RavenChannelModel, rc2: RavenChannelModel, dn: Seq<char>)
    requires
        settled(st.channels, rc, dn),
        rc.name.len() > 0,
        rc2.name.len() > 0,
        rc.name != rc2.name,
    ensures
        settled(merge_step(st, rc2, dn).channels, rc, dn),
        first_match(merge_step(st, rc2, dn).channels, rc.name, dn) == first_match(st.channels, rc.name, dn),
        merge_step(st, rc2, dn).channels[first_match(st.channels, rc.name, dn)] == st.channels[first_match(
            st.channels,
            rc.name,
            dn,
        )],
{
    let chs = st.channels;
    let j = first_match(chs, rc.name, dn);
    let q = first_match(chs, rc2.name, dn);
    lemma_first_match_spec(chs, rc.name, dn);
    lemma_first_match_spec(chs, rc2.name, dn);
    let next = merge_step(st, rc2, dn).channels;
    // the channel that stands for `rc` does not stand for `rc2`
    assert(!is_match(chs[j], rc2.name, dn));
    assert(q != j);
    assert(next[j] == chs[j]);
    assert forall|k: int| 0 <= k < j implies !is_match(#[trigger] next[k], rc.name, dn) by {
        if k != q {
            assert(next[k] == chs[k]);
        }
    }
    lemma_first_match_found(next, rc.name, dn, j);
}

/// The raven channels, pairwise distinct by name and all named.
pub open spec fn distinct_named(raven: Seq<RavenChannelModel>) -> bool {
    &&& forall|i: int| 0 <= i < raven.len() ==> (#[trigger] raven[i]).name.len() > 0
    &&& forall|i: int, j: int|
        0 <= i < raven.len() && 0 <= j < raven.len() && i != j ==> (#[trigger] raven[i]).name != (
        #[trigger] raven[j]).name
}

/// After merging distinct, named raven channels, every one of them is settled.
proof fn lemma_merge_run_settles(st: MergeModel, raven: Seq<RavenChannelModel>, dn: Seq<char>)
    requires
        distinct_named(raven),
    ensures
        forall|i: int| 0 <= i < raven.len() ==> settled(merge_run(st, raven, dn).channels, #[trigger] raven[i], dn),
    decreases raven.len(),
{
    if raven.len() > 0 {
        let init = raven.drop_last();
        let rc = raven.last();
        assert forall|i: int, j: int|
            0 <= i < init.len() && 0 <= j < init.len() && i != j implies (#[trigger] init[i]).name != (
            #[trigger] init[j]).name by {
            assert(init[i] == raven[i] && init[j] == raven[j]);
        }
        assert forall|i: int| 0 <= i < init.len() implies (#[trigger] init[i]).name.len() > 0 by {
            assert(init[i] == raven[i]);
        }
        lemma_merge_run_settles(st, init, dn);
        let mid = merge_run(st, init, dn);
        lemma_step_settles(mid, rc, dn);
        assert forall|i: int| 0 <= i < raven.len() implies settled(
            merge_run(st, raven, dn).channels,
            #[trigger] raven[i],
            dn,
        ) by {
            if i < raven.len() - 1 {
                assert(init[i] == raven[i]);
                assert(raven[i].name != raven[raven.len() - 1].name);
                lemma_step_keeps_settled(mid, raven[i], rc, dn);
            }
        }
    }
}

/// Merging raven channels that are all settled changes nothing.
proof fn lemma_merge_run_settled_noop(st: MergeModel, raven: Seq<RavenChannelModel>, dn: Seq<char>)
    requires
        forall|i: int| 0 <= i < raven.len() ==> settled(st.channels, #[trigger] raven[i], dn),
    ensures
        merge_run(st, raven, dn) == st,
    decreases raven.len(),
{
    if raven.len() > 0 {
        let init = raven.drop_last();
        assert forall|i: int| 0 <= i < init.len() implies settled(st.channels, #[trigger] init[i], dn) by {
            assert(init[i] == raven[i]);
        }
        lemma_merge_run_settled_noop(st, init, dn);
        assert(settled(st.channels, raven[raven.len() - 1], dn));
        lemma_first_match_spec(st.channels, raven.last().name, dn);
    }
}

/// Merging the same raven channels a second time, when their names are
/// non-empty and pairwise distinct, installs nothing and changes no channel.
pub proof fn lemma_merge_twice(device: Seq<ChannelKeyModel>, raven: Seq<RavenChannelModel>, modem_preset: i32)
    requires
        distinct_named(raven),
    ensures
        merge_spec(merge_spec(device, raven, modem_preset).channels, raven, modem_preset).channels
            == merge_spec(device, raven, modem_preset).channels,
        merge_spec(merge_spec(device, raven, modem_preset).channels, raven, modem_preset).to_install.len()
            == 0,
{
    let dn = preset_name(modem_preset);
    let st0 = MergeModel { channels: device, to_install: Seq::empty(), max_index: max_index_of(device) };
    lemma_merge_run_settles(st0, raven, dn);
    let chs = merge_spec(device, raven, modem_preset).channels;
    let st1 = MergeModel { channels: chs, to_install: Seq::empty(), max_index: max_index_of(chs) };
    lemma_merge_run_settled_noop(st1, raven, dn);
}

/// Parsing a list of namekeys succeeds exactly when every namekey parses,
/// and then gives one channel per namekey, in order, each the parse of its
/// namekey; otherwise it fails with the error of the first namekey that
/// does not parse.
pub proof fn lemma_parse_all_each(nks: Seq<Seq<char>>)
    ensures
        parse_all(nks) is Ok <==> forall|i: int|
            0 <= i < nks.len() ==> (#[trigger] parse_namekey_spec(vstd::utf8::encode_utf8(nks[i]))) is Ok,
        parse_all(nks) matches Ok(cs) ==> cs.len() == nks.len() && forall|i: int|
            0 <= i < nks.len() ==> Ok::<RavenChannelModel, NamekeyError>(#[trigger] cs[i]) == parse_namekey_spec(
                vstd::utf8::encode_utf8(nks[i]),
            ),
        parse_all(nks) matches Err(e) ==> exists|i: int|
            0 <= i < nks.len() && parse_namekey_spec(vstd::utf8::encode_utf8(nks[i])) == Err::<
                RavenChannelModel,
                NamekeyError,
            >(e) && forall|j: int|
                0 <= j < i ==> (#[trigger] parse_namekey_spec(vstd::utf8::encode_utf8(nks[j]))) is Ok,
    decreases nks.len(),
{
    if nks.len() > 0 {
        let init = nks.drop_last();
        lemma_parse_all_each(init);
        let last = nks.len() - 1;
        assert forall|i: int| 0 <= i < init.len() implies init[i] == nks[i] by {}
        match parse_all(init) {
            Err(e) => {
                let i = choose|i: int|
                    0 <= i < init.len() && parse_namekey_spec(vstd::utf8::encode_utf8(init[i])) == Err::<
                        RavenChannelModel,
                        NamekeyError,
                    >(e) && forall|j: int|
                        0 <= j < i ==> (#[trigger] parse_namekey_spec(vstd::utf8::encode_utf8(init[j]))) is Ok;
                assert(init[i] == nks[i]);
                assert forall|j: int| 0 <= j < i implies (#[trigger] parse_namekey_spec(
                    vstd::utf8::encode_utf8(nks[j]),
                )) is Ok by {
                    assert(init[j] == nks[j]);
                    assert(parse_namekey_spec(vstd::utf8::encode_utf8(init[j])) is Ok);
                }
                assert(!(parse_namekey_spec(vstd::utf8::encode_utf8(nks[i])) is Ok));
            },
            Ok(cs) => {
                assert(nks.last() == nks[last]);
                match parse_namekey_spec(vstd::utf8::encode_utf8(nks[last])) {
                    Ok(c) => {
                        let all = cs.push(c);
                        assert forall|i: int| 0 <= i < nks.len() implies Ok::<RavenChannelModel, NamekeyError>(
                            #[trigger] all[i],
                        ) == parse_namekey_spec(vstd::utf8::encode_utf8(nks[i])) by {
                            if i < last {
                                assert(init[i] == nks[i]);
                                assert(Ok::<RavenChannelModel, NamekeyError>(cs[i]) == parse_namekey_spec(
                                    vstd::utf8::encode_utf8(init[i]),
                                ));
                            }
                        }
                        assert forall|i: int| 0 <= i < nks.len() implies (#[trigger] parse_namekey_spec(
                            vstd::utf8::encode_utf8(nks[i]),
                        )) is Ok by {
                            if i < last {
                                assert(init[i] == nks[i]);
                                assert(parse_namekey_spec(vstd::utf8::encode_utf8(init[i])) is Ok);
                            }
                        }
                    },
                    Err(e) => {
                        assert forall|j: int| 0 <= j < last implies (#[trigger] parse_namekey_spec(
                            vstd::utf8::encode_utf8(nks[j]),
                        )) is Ok by {
                            assert(init[j] == nks[j]);
                            assert(parse_namekey_spec(vstd::utf8::encode_utf8(init[j])) is Ok);
                        }
                    },
                }
            },
        }
    }
}

/// Loading a configuration succeeds exactly when its channel list has the
/// right shape and every namekey in it parses; it then gives one channel per
/// namekey, in order, each the parse of its namekey. A single namekey that
/// does not parse makes the whole load fail with that namekey's error.
pub proof fn lemma_load_all_or_nothing(base: Json, over: Option<Json>)
    ensures
        load_spec(Some(base), over) is Ok <==> (config_namekeys(merged_config(base, over)) matches Some(nks)
            && forall|i: int|
            0 <= i < nks.len() ==> (#[trigger] parse_namekey_spec(vstd::utf8::encode_utf8(nks[i]))) is Ok),
        load_spec(Some(base), over) matches Ok(r) ==> (r matches Some(cs) && config_namekeys(
            merged_config(base, over),
        ) matches Some(nks) && cs.len() == nks.len() && forall|i: int|
            0 <= i < nks.len() ==> Ok::<RavenChannelModel, NamekeyError>(#[trigger] cs[i])
                == parse_namekey_spec(vstd::utf8::encode_utf8(nks[i]))),
        load_spec(Some(base), over) == Err::<Option<Seq<RavenChannelModel>>, RavenError>(
            RavenError::InvalidConfig,
        ) <==> config_namekeys(merged_config(base, over)) is None,
        load_spec(Some(base), over) matches Err(RavenError::InvalidNamekey(e)) ==> (config_namekeys(
            merged_config(base, over),
        ) matches Some(nks) && exists|i: int|
            0 <= i < nks.len() && parse_namekey_spec(vstd::utf8::encode_utf8(nks[i])) == Err::<
                RavenChannelModel,
                NamekeyError,
            >(e)),
{
    let cfg = merged_config(base, over);
    match config_namekeys(cfg) {
        Some(nks) => {
            lemma_parse_all_each(nks);
            match parse_all(nks) {
                Ok(cs) => {
                    assert(load_spec(Some(base), over) == Ok::<Option<Seq<RavenChannelModel>>, RavenError>(
                        Some(cs),
                    ));
                },
                Err(e) => {
                    assert(load_spec(Some(base), over) == Err::<Option<Seq<RavenChannelModel>>, RavenError>(
                        RavenError::InvalidNamekey(e),
                    ));
                },
            }
        },
        None => {},
    }
}

/// What merging one raven channel installs: nothing, or exactly one more
/// message, carrying the raven channel's own name and raw PSK, for the index
/// of a channel that now has the raven channel's name and holds its
/// expanded PSK.
pub proof fn lemma_merge_step_install(st: MergeModel, rc: RavenChannelModel, default_name: Seq<char>)
    ensures
        merge_step(st, rc, default_name).to_install == st.to_install || (merge_step(
            st,
            rc,
            default_name,
        ).to_install.len() == st.to_install.len() + 1 && merge_step(st, rc, default_name).to_install.take(
            st.to_install.len() as int,
        ) == st.to_install && ({
            let msg = merge_step(st, rc, default_name).to_install.last();
            let next = merge_step(st, rc, default_name).channels;
            &&& msg.settings == Some((rc.psk, rc.name))
            &&& exists|j: int|
                0 <= j < next.len() && (#[trigger] next[j]).index as i32 == msg.index && next[j].name
                    == rc.name && next[j].key == crate::crypto::expanded_key(rc.psk)
        })),
{
    let p = first_match(st.channels, rc.name, default_name);
    let next = merge_step(st, rc, default_name);
    lemma_first_match_spec(st.channels, rc.name, default_name);
    if next.to_install != st.to_install {
        assert(next.to_install.take(st.to_install.len() as int) =~= st.to_install);
        let j = if p < st.channels.len() { p } else { st.channels.len() as int };
        assert(next.channels[j].index as i32 == next.to_install.last().index);
    }
}

/// Every message that a merge installs carries the name and the raw PSK of
/// one of the raven channels, and there is at most one message per raven
/// channel.
pub proof fn lemma_merge_installs_raven_settings(
    device: Seq<ChannelKeyModel>,
    raven: Seq<RavenChannelModel>,
    modem_preset: i32,
)
    ensures
        merge_spec(device, raven, modem_preset).to_install.len() <= raven.len(),
        forall|t: int|
            0 <= t < merge_spec(device, raven, modem_preset).to_install.len() ==> exists|k: int|
                0 <= k < raven.len() && (#[trigger] merge_spec(device, raven, modem_preset).to_install[t]).settings
                    == Some((raven[k].psk, raven[k].name)),
{
    let st0 = MergeModel { channels: device, to_install: Seq::empty(), max_index: max_index_of(device) };
    lemma_merge_run_installs(st0, raven, preset_name(modem_preset));
}

proof fn lemma_merge_run_installs(st0: MergeModel, raven: Seq<RavenChannelModel>, dn: Seq<char>)
    requires
        st0.to_install.len() == 0,
    ensures
        merge_run(st0, raven, dn).to_install.len() <= raven.len(),
        forall|t: int|
            0 <= t < merge_run(st0, raven, dn).to_install.len() ==> exists|k: int|
                0 <= k < raven.len() && (#[trigger] merge_run(st0, raven, dn).to_install[t]).settings == Some(
                    (raven[k].psk, raven[k].name),
                ),
    decreases raven.len(),
{
    if raven.len() > 0 {
        let init = raven.drop_last();
        lemma_merge_run_installs(st0, init, dn);
        let mid = merge_run(st0, init, dn);
        lemma_merge_step_install(mid, raven.last(), dn);
        let fin = merge_run(st0, raven, dn);
        assert forall|t: int| 0 <= t < fin.to_install.len() implies exists|k: int|
            0 <= k < raven.len() && (#[trigger] fin.to_install[t]).settings == Some(
                (raven[k].psk, raven[k].name),
            ) by {
            if t < mid.to_install.len() {
                assert(fin.to_install[t] == mid.to_install[t]) by {
                    if fin.to_install != mid.to_install {
                        assert(fin.to_install.take(mid.to_install.len() as int)[t] == fin.to_install[t]);
                    }
                }
                let k = choose|k: int|
                    0 <= k < init.len() && (#[trigger] mid.to_install[t]).settings == Some(
                        (init[k].psk, init[k].name),
                    );
                assert(init[k] == raven[k]);
            } else {
                assert(fin.to_install[t] == fin.to_install.last());
                assert(raven.last() == raven[raven.len() - 1]);
            }
        }
    }
}

/// When the raven channels have non-empty, pairwise distinct names, every
/// message that a merge installs matches a channel of the merged list: the
/// channel with the message's index has the message's name and holds the
/// key that the message's PSK expands to, so the radio and the bridge use
/// the same key.
pub proof fn lemma_merge_installs_match_channels(
    device: Seq<ChannelKeyModel>,
    raven: Seq<RavenChannelModel>,
    modem_preset: i32,
)
    requires
        distinct_named(raven),
    ensures
        installs_match_channels(merge_spec(device, raven, modem_preset)),
{
    let st0 = MergeModel { channels: device, to_install: Seq::empty(), max_index: max_index_of(device) };
    let dn = preset_name(modem_preset);
    lemma_merge_run_install_owners(st0, raven, dn);
    let fin = merge_run(st0, raven, dn);
    assert forall|t: int| 0 <= t < fin.to_install.len() implies installed_channel(
        fin.channels,
        #[trigger] fin.to_install[t],
    ) by {
        let k = choose|k: int| 0 <= k < raven.len() && install_owner(fin, fin.to_install[t], raven[k], dn);
        lemma_owner_matches(fin, fin.to_install[t], raven[k], dn);
    }
    assert(installs_match_channels(fin));
}

proof fn lemma_owner_matches(m: MergeModel, msg: ChannelModel, rc: RavenChannelModel, dn: Seq<char>)
    requires
        install_owner(m, msg, rc, dn),
    ensures
        installed_channel(m.channels, msg),
{
    let j = first_match(m.channels, rc.name, dn);
    lemma_first_match_spec(m.channels, rc.name, dn);
    assert(install_matches(msg, m.channels[j]));
}

/// The message `msg` installs the channel `ch`: same index, same name, and a
/// PSK that expands to the channel's key.
pub open spec fn install_matches(msg: ChannelModel, ch: ChannelKeyModel) -> bool {
    &&& msg.settings matches Some((psk, name))
    &&& ch.index as i32 == msg.index
    &&& ch.name == name
    &&& ch.key == crate::crypto::expanded_key(psk)
}

/// Some channel of `chs` is the one that the message `msg` installs.
pub open spec fn installed_channel(chs: Seq<ChannelKeyModel>, msg: ChannelModel) -> bool {
    exists|j: int| 0 <= j < chs.len() && install_matches(msg, #[trigger] chs[j])
}

/// Every message that the merge result installs matches one of its channels.
pub open spec fn installs_match_channels(m: MergeModel) -> bool {
    forall|t: int| 0 <= t < m.to_install.len() ==> installed_channel(m.channels, #[trigger] m.to_install[t])
}

/// The message `msg` was installed for the raven channel `rc`, and the first
/// channel that stands for `rc` has the message's index, `rc`'s name and its
/// expanded PSK.
pub open spec fn install_owner(st: MergeModel, msg: ChannelModel, rc: RavenChannelModel, dn: Seq<char>) -> bool {
    let j = first_match(st.channels, rc.name, dn);
    &&& msg.settings == Some((rc.psk, rc.name))
    &&& j < st.channels.len()
    &&& st.channels[j].index as i32 == msg.index
    &&& st.channels[j].name == rc.name
    &&& st.channels[j].key == crate::crypto::expanded_key(rc.psk)
}

proof fn lemma_merge_run_install_owners(st0: MergeModel, raven: Seq<RavenChannelModel>, dn: Seq<char>)
    requires
        st0.to_install.len() == 0,
        distinct_named(raven),
    ensures
        forall|t: int|
            0 <= t < merge_run(st0, raven, dn).to_install.len() ==> exists|k: int|
                0 <= k < raven.len() && install_owner(
                    merge_run(st0, raven, dn),
                    #[trigger] merge_run(st0, raven, dn).to_install[t],
                    raven[k],
                    dn,
                ),
    decreases raven.len(),
{
    if raven.len() > 0 {
        let init = raven.drop_last();
        assert forall|i: int, j: int|
            0 <= i < init.len() && 0 <= j < init.len() && i != j implies (#[trigger] init[i]).name != (
            #[trigger] init[j]).name by {
            assert(init[i] == raven[i] && init[j] == raven[j]);
        }
        assert forall|i: int| 0 <= i < init.len() implies (#[trigger] init[i]).name.len() > 0 by {
            assert(init[i] == raven[i]);
        }
        lemma_merge_run_install_owners(st0, init, dn);
        let mid = merge_run(st0, init, dn);
        let rc = raven.last();
        assert(rc == raven[raven.len() - 1]);
        lemma_merge_step_install(mid, rc, dn);
        lemma_step_settles(mid, rc, dn);
        let fin = merge_run(st0, raven, dn);
        assert(fin == merge_step(mid, rc, dn));
        assert forall|t: int| 0 <= t < fin.to_install.len() implies exists|k: int|
            0 <= k < raven.len() && install_owner(fin, #[trigger] fin.to_install[t], raven[k], dn) by {
            if t < mid.to_install.len() {
                assert(fin.to_install[t] == mid.to_install[t]) by {
                    if fin.to_install != mid.to_install {
                        assert(fin.to_install.take(mid.to_install.len() as int)[t] == fin.to_install[t]);
                    }
                }
                let k = choose|k: int| 0 <= k < init.len() && install_owner(mid, mid.to_install[t], init[k], dn);
                assert(init[k] == raven[k]);
                assert(raven[k].name != rc.name);
                lemma_step_keeps_settled(mid, raven[k], rc, dn);
                assert(install_owner(fin, fin.to_install[t], raven[k], dn));
            } else {
                assert(fin.to_install != mid.to_install);
                assert(fin.to_install[t] == fin.to_install.last());
                assert(install_owner(fin, fin.to_install[t], raven[raven.len() - 1], dn));
            }
        }
    }
}

} // verus!
