use crate::codec::{
    dict_get, dict_insert, dict_lookup, entries_view, keys_unique, lemma_entries_view,
    lemma_find_key_absent, lemma_find_key_first, Property, PropertyValue,
    PropertyView, Settings, SettingsView, ValueView,
};
use crate::types::FactorioVersion;
use indexmap::IndexMap;
use vstd::prelude::*;

verus! {

/// The insertion-ordered map of the `indexmap` crate, which holds each section
/// of the flat view. Its contents are known through [`section_entries`].
#[verifier::external_type_specification]
#[verifier::external_body]
#[verifier::reject_recursive_types(K)]
#[verifier::reject_recursive_types(V)]
#[verifier::reject_recursive_types(S)]
pub struct ExIndexMap<K, V, S>(IndexMap<K, V, S>);

/// One setting of the flat view.
///
/// Numbers and color channels are held as IEEE-754 bit patterns, as in
/// [`PropertyValue::Double`].
#[derive(Clone, Debug, PartialEq)]
pub enum ModSettingsValue {
    Empty,
    Bool(bool),
    Number(u64),
    String(String),
    Color { r: u64, g: u64, b: u64, a: u64 },
    Integer(i64),
}

/// A setting, as a mathematical value.
pub enum SettingValueView {
    Empty,
    Bool(bool),
    Number(u64),
    String(Seq<char>),
    Color { r: u64, g: u64, b: u64, a: u64 },
    Integer(i64),
}

impl View for ModSettingsValue {
    type V = SettingValueView;

    open spec fn view(&self) -> SettingValueView {
        match self {
            ModSettingsValue::Empty => SettingValueView::Empty,
            ModSettingsValue::Bool(b) => SettingValueView::Bool(*b),
            ModSettingsValue::Number(x) => SettingValueView::Number(*x),
            ModSettingsValue::String(s) => SettingValueView::String(s@),
            ModSettingsValue::Color { r, g, b, a } => SettingValueView::Color {
                r: *r,
                g: *g,
                b: *b,
                a: *a,
            },
            ModSettingsValue::Integer(i) => SettingValueView::Integer(*i),
        }
    }
}

/// The (name, setting) pairs that a section map holds, in insertion order.
pub uninterp spec fn section_entries(m: IndexMap<String, ModSettingsValue>) -> Seq<
    (Seq<char>, SettingValueView),
>;

/// Relies on `IndexMap::new`: a new map holds nothing.
#[verifier::external_body]
fn section_new() -> (r: IndexMap<String, ModSettingsValue>)
    ensures
        section_entries(r) == Seq::<(Seq<char>, SettingValueView)>::empty(),
{
    IndexMap::new()
}

/// Relies on `IndexMap::insert`: an existing key keeps its place and takes
/// the new value; a new key goes last.
#[verifier::external_body]
fn section_insert(m: &mut IndexMap<String, ModSettingsValue>, key: String, value: ModSettingsValue)
    ensures
        section_entries(*final(m)) == dict_insert(section_entries(*old(m)), key@, value@),
{
    m.insert(key, value);
}

/// Relies on `IndexMap::len`: the number of pairs held.
#[verifier::external_body]
fn section_len(m: &IndexMap<String, ModSettingsValue>) -> (r: usize)
    ensures
        r == section_entries(*m).len(),
{
    m.len()
}

/// Relies on `IndexMap::get_index`: the pair at a position in insertion
/// order, for a position below the length.
#[verifier::external_body]
fn section_get_index(m: &IndexMap<String, ModSettingsValue>, i: usize) -> (r: Option<
    (&String, &ModSettingsValue),
>)
    ensures
        r is Some <==> i < section_entries(*m).len(),
        r matches Some((k, v)) ==> section_entries(*m)[i as int] == (k@, v@),
{
    m.get_index(i)
}

/// The flat, editable view of a settings file: its version and its three
/// sections, each an ordered map from setting name to value.
#[derive(Debug, PartialEq)]
pub struct ModSettings {
    pub factorio_version: FactorioVersion,
    pub startup: IndexMap<String, ModSettingsValue>,
    pub runtime_global: IndexMap<String, ModSettingsValue>,
    pub runtime_per_user: IndexMap<String, ModSettingsValue>,
}

/// The flat view, as a mathematical value.
pub struct ModSettingsView {
    pub version: FactorioVersion,
    pub startup: Seq<(Seq<char>, SettingValueView)>,
    pub runtime_global: Seq<(Seq<char>, SettingValueView)>,
    pub runtime_per_user: Seq<(Seq<char>, SettingValueView)>,
}

impl View for ModSettings {
    type V = ModSettingsView;

    open spec fn view(&self) -> ModSettingsView {
        ModSettingsView {
            version: self.factorio_version,
            startup: section_entries(self.startup),
            runtime_global: section_entries(self.runtime_global),
            runtime_per_user: section_entries(self.runtime_per_user),
        }
    }
}

/// A channel of a color setting.
#[derive(Clone, Copy, Debug, PartialEq, Eq, Structural)]
pub enum ColorChannel {
    Red,
    Green,
    Blue,
    Alpha,
}

/// Why one setting's node does not have the shape of a setting.
#[derive(Clone, Copy, Debug, PartialEq, Eq, Structural)]
pub enum SettingError {
    /// The setting's node is not a dictionary.
    NotDictionary,
    /// The setting's dictionary has no `value` key.
    MissingValue,
    /// The value is none, a list, or a dictionary that is not a color.
    InvalidValueType,
    /// The color lacks this channel.
    MissingColorChannel(ColorChannel),
    /// This channel of the color is not a double.
    ColorChannelNotNumber(ColorChannel),
}

/// Why a tree does not have the shape of the flat view.
#[derive(Clone, Debug, PartialEq)]
pub enum ProjectionError {
    /// The root node is not a dictionary.
    RootNotDictionary,
    /// The root has no section of this name.
    MissingSection(String),
    /// The section of this name is not a dictionary.
    SectionNotDictionary(String),
    /// The setting of this name is malformed.
    InvalidSetting(String, SettingError),
}

pub enum ProjectionErrorView {
    RootNotDictionary,
    MissingSection(Seq<char>),
    SectionNotDictionary(Seq<char>),
    InvalidSetting(Seq<char>, SettingError),
}

impl View for ProjectionError {
    type V = ProjectionErrorView;

    open spec fn view(&self) -> ProjectionErrorView {
        match self {
            ProjectionError::RootNotDictionary => ProjectionErrorView::RootNotDictionary,
            ProjectionError::MissingSection(s) => ProjectionErrorView::MissingSection(s@),
            ProjectionError::SectionNotDictionary(s) => ProjectionErrorView::SectionNotDictionary(s@),
            ProjectionError::InvalidSetting(s, e) => ProjectionErrorView::InvalidSetting(s@, *e),
        }
    }
}

// ---------------------------------------------------------------------------
// From the tree to the flat view

pub open spec fn channel_key(c: ColorChannel) -> Seq<char> {
    match c {
        ColorChannel::Red => "r"@,
        ColorChannel::Green => "g"@,
        ColorChannel::Blue => "b"@,
        ColorChannel::Alpha => "a"@,
    }
}

/// One channel of a color dictionary: a double under its one-letter key.
pub open spec fn channel_of(color: Seq<(Seq<char>, PropertyView)>, c: ColorChannel) -> Result<
    u64,
    SettingError,
> {
    match dict_get(color, channel_key(c)) {
        None => Err(SettingError::MissingColorChannel(c)),
        Some(p) => match p.value {
            ValueView::Double(bits) => Ok(bits),
            _ => Err(SettingError::ColorChannelNotNumber(c)),
        },
    }
}

/// The setting that a node holds: a dictionary whose `value` key holds a
/// boolean, a number, a string, or a color dictionary with keys r, g, b, a.
pub open spec fn setting_of(p: PropertyView) -> Result<SettingValueView, SettingError> {
    match p.value {
        ValueView::Dictionary(entries) => match dict_get(entries, "value"@) {
            None => Err(SettingError::MissingValue),
            Some(v) => match v.value {
                ValueView::Bool(b) => Ok(SettingValueView::Bool(b)),
                ValueView::Double(x) => Ok(SettingValueView::Number(x)),
                ValueView::String(s) => Ok(SettingValueView::String(s)),
                ValueView::Integer(i) => Ok(SettingValueView::Integer(i)),
                ValueView::Dictionary(color) => match channel_of(color, ColorChannel::Red) {
                    Err(e) => Err(e),
                    Ok(r) => match channel_of(color, ColorChannel::Green) {
                        Err(e) => Err(e),
                        Ok(g) => match channel_of(color, ColorChannel::Blue) {
                            Err(e) => Err(e),
                            Ok(b) => match channel_of(color, ColorChannel::Alpha) {
                                Err(e) => Err(e),
                                Ok(a) => Ok(SettingValueView::Color { r, g, b, a }),
                            },
                        },
                    },
                },
                _ => Err(SettingError::InvalidValueType),
            },
        },
        _ => Err(SettingError::NotDictionary),
    }
}

/// The settings of a section's entries, in order; the first malformed entry
/// is the error.
pub open spec fn settings_of(entries: Seq<(Seq<char>, PropertyView)>) -> Result<
    Seq<(Seq<char>, SettingValueView)>,
    ProjectionErrorView,
>
    decreases entries.len(),
{
    if entries.len() == 0 {
        Ok(seq![])
    } else {
        let last = entries[entries.len() - 1];
        match settings_of(entries.subrange(0, entries.len() - 1)) {
            Err(e) => Err(e),
            Ok(acc) => match setting_of(last.1) {
                Err(e) => Err(ProjectionErrorView::InvalidSetting(last.0, e)),
                Ok(v) => Ok(dict_insert(acc, last.0, v)),
            },
        }
    }
}

/// Once a prefix of a section fails, the whole section fails the same way.
pub proof fn lemma_settings_of_error_prefix(s: Seq<(Seq<char>, PropertyView)>, k: int)
    requires
        0 <= k <= s.len(),
        settings_of(s.subrange(0, k)) is Err,
    ensures
        settings_of(s) == settings_of(s.subrange(0, k)),
    decreases s.len() - k,
{
    if k == s.len() {
        assert(s.subrange(0, k) =~= s);
    } else {
        assert(s.subrange(0, k + 1).subrange(0, k) =~= s.subrange(0, k));
        lemma_settings_of_error_prefix(s, k + 1);
    }
}

/// The section `name` of the root dictionary.
pub open spec fn section_of(root: Seq<(Seq<char>, PropertyView)>, name: Seq<char>) -> Result<
    Seq<(Seq<char>, SettingValueView)>,
    ProjectionErrorView,
> {
    match dict_get(root, name) {
        None => Err(ProjectionErrorView::MissingSection(name)),
        Some(p) => match p.value {
            ValueView::Dictionary(entries) => settings_of(entries),
            _ => Err(ProjectionErrorView::SectionNotDictionary(name)),
        },
    }
}

/// The flat view of a tree: sections `startup`, `runtime-global` and
/// `runtime-per-user`, checked in that order.
pub open spec fn simple_of(s: SettingsView) -> Result<ModSettingsView, ProjectionErrorView> {
    match s.properties.value {
        ValueView::Dictionary(root) => match section_of(root, "startup"@) {
            Err(e) => Err(e),
            Ok(startup) => match section_of(root, "runtime-global"@) {
                Err(e) => Err(e),
                Ok(runtime_global) => match section_of(root, "runtime-per-user"@) {
                    Err(e) => Err(e),
                    Ok(runtime_per_user) => Ok(
                        ModSettingsView { version: s.version, startup, runtime_global, runtime_per_user },
                    ),
                },
            },
        },
        _ => Err(ProjectionErrorView::RootNotDictionary),
    }
}

fn channel_name(c: ColorChannel) -> (r: String)
    ensures
        r@ == channel_key(c),
{
    match c {
        ColorChannel::Red => "r".to_owned(),
        ColorChannel::Green => "g".to_owned(),
        ColorChannel::Blue => "b".to_owned(),
        ColorChannel::Alpha => "a".to_owned(),
    }
}

fn read_channel(color: &Vec<(String, Property)>, c: ColorChannel) -> (r: Result<u64, SettingError>)
    ensures
        r == channel_of(entries_view(color@), c),
{
    match dict_lookup(color, &channel_name(c)) {
        None => Err(SettingError::MissingColorChannel(c)),
        Some(p) => match &p.value {
            PropertyValue::Double(bits) => Ok(*bits),
            _ => Err(SettingError::ColorChannelNotNumber(c)),
        },
    }
}

impl ModSettingsValue {
    /// The setting that a node holds.
    pub fn try_from(value: &Property) -> (r: Result<ModSettingsValue, SettingError>)
        ensures
            match r {
                Ok(v) => setting_of(value@) == Ok::<_, SettingError>(v@),
                Err(e) => setting_of(value@) == Err::<SettingValueView, _>(e),
            },
    {
        let entries = match &value.value {
            PropertyValue::Dictionary(entries) => entries,
            _ => {
                return Err(SettingError::NotDictionary);
            },
        };
        let inner = match dict_lookup(entries, &"value".to_owned()) {
            Some(inner) => inner,
            None => {
                return Err(SettingError::MissingValue);
            },
        };
        match &inner.value {
            PropertyValue::Bool(b) => Ok(ModSettingsValue::Bool(*b)),
            PropertyValue::Double(x) => Ok(ModSettingsValue::Number(*x)),
            PropertyValue::String(s) => Ok(ModSettingsValue::String(s.clone())),
            PropertyValue::Integer(i) => Ok(ModSettingsValue::Integer(*i)),
            PropertyValue::Dictionary(color) => {
                let r = read_channel(color, ColorChannel::Red)?;
                let g = read_channel(color, ColorChannel::Green)?;
                let b = read_channel(color, ColorChannel::Blue)?;
                let a = read_channel(color, ColorChannel::Alpha)?;
                Ok(ModSettingsValue::Color { r, g, b, a })
            },
            _ => Err(SettingError::InvalidValueType),
        }
    }
}

/// Reads the section `key` of the root dictionary into a flat map.
fn property_map_parse(root: &Vec<(String, Property)>, key: &str) -> (r: Result<
    IndexMap<String, ModSettingsValue>,
    ProjectionError,
>)
    ensures
        match r {
            Ok(m) => section_of(entries_view(root@), key@) == Ok::<_, ProjectionErrorView>(
                section_entries(m),
            ),
            Err(e) => section_of(entries_view(root@), key@) == Err::<
                Seq<(Seq<char>, SettingValueView)>,
                _,
            >(e@),
        },
{
    let name = key.to_owned();
    let section = match dict_lookup(root, &name) {
        Some(p) => p,
        None => {
            return Err(ProjectionError::MissingSection(name));
        },
    };
    let entries = match &section.value {
        PropertyValue::Dictionary(entries) => entries,
        _ => {
            return Err(ProjectionError::SectionNotDictionary(name));
        },
    };
    proof {
        lemma_entries_view(entries@);
    }
    let ghost ev = entries_view(entries@);
    assert(section_of(entries_view(root@), key@) == settings_of(ev));
    let mut map = section_new();
    let mut i: usize = 0;
    while i < entries.len()
        invariant
            i <= entries@.len(),
            ev == entries_view(entries@),
            ev.len() == entries@.len(),
            forall|j: int|
                0 <= j < entries@.len() ==> #[trigger] ev[j] == (entries@[j].0@, entries@[j].1@),
            section_of(entries_view(root@), key@) == settings_of(ev),
            settings_of(ev.subrange(0, i as int)) == Ok::<_, ProjectionErrorView>(section_entries(map)),
        decreases entries@.len() - i,
    {
        let entry = &entries[i];
        proof {
            assert(ev.subrange(0, i + 1).subrange(0, i as int) =~= ev.subrange(0, i as int));
        }
        match ModSettingsValue::try_from(&entry.1) {
            Ok(v) => {
                section_insert(&mut map, entry.0.clone(), v);
            },
            Err(e) => {
                proof {
                    let pre = ev.subrange(0, i + 1);
                    assert(pre[i as int] == ev[i as int]);
                    assert(settings_of(pre) == Err::<Seq<(Seq<char>, SettingValueView)>, _>(
                        ProjectionErrorView::InvalidSetting(entry.0@, e),
                    ));
                    lemma_settings_of_error_prefix(ev, i + 1);
                }
                return Err(ProjectionError::InvalidSetting(entry.0.clone(), e));
            },
        }
        i = i + 1;
    }
    assert(ev.subrange(0, i as int) =~= ev);
    Ok(map)
}

impl ModSettings {
    /// The flat view of a settings tree.
    pub fn try_from(value: &Settings) -> (r: Result<ModSettings, ProjectionError>)
        ensures
            match r {
                Ok(m) => simple_of(value@) == Ok::<_, ProjectionErrorView>(m@),
                Err(e) => simple_of(value@) == Err::<ModSettingsView, _>(e@),
            },
    {
        let root = match &value.properties.value {
            PropertyValue::Dictionary(root) => root,
            _ => {
                return Err(ProjectionError::RootNotDictionary);
            },
        };
        let startup = property_map_parse(root, "startup")?;
        let runtime_global = property_map_parse(root, "runtime-global")?;
        let runtime_per_user = property_map_parse(root, "runtime-per-user")?;
        Ok(ModSettings { factorio_version: value.version, startup, runtime_global, runtime_per_user })
    }
}

// ---------------------------------------------------------------------------
// From the flat view to the tree

/// A node with its flag false.
pub open spec fn flagless(value: ValueView) -> PropertyView {
    PropertyView { any_flag: false, value }
}

/// The leaf that holds a setting; a color becomes a dictionary of four doubles.
pub open spec fn leaf_of(v: SettingValueView) -> ValueView {
    match v {
        SettingValueView::Empty => ValueView::Empty,
        SettingValueView::Bool(b) => ValueView::Bool(b),
        SettingValueView::Number(x) => ValueView::Double(x),
        SettingValueView::String(s) => ValueView::String(s),
        SettingValueView::Color { r, g, b, a } => ValueView::Dictionary(
            seq![
                ("r"@, flagless(ValueView::Double(r))),
                ("g"@, flagless(ValueView::Double(g))),
                ("b"@, flagless(ValueView::Double(b))),
                ("a"@, flagless(ValueView::Double(a))),
            ],
        ),
        SettingValueView::Integer(i) => ValueView::Integer(i),
    }
}

/// The node of one setting: a dictionary `{ "value": leaf }`.
pub open spec fn setting_property(v: SettingValueView) -> PropertyView {
    flagless(ValueView::Dictionary(seq![("value"@, flagless(leaf_of(v)))]))
}

/// The node of a section: its settings' nodes under their names, in order.
pub open spec fn section_property(m: Seq<(Seq<char>, SettingValueView)>) -> PropertyView {
    flagless(
        ValueView::Dictionary(
            m.map_values(|e: (Seq<char>, SettingValueView)| (e.0, setting_property(e.1))),
        ),
    )
}

/// The tree of a flat view: the three sections under a root dictionary.
pub open spec fn settings_of_simple(s: ModSettingsView) -> SettingsView {
    SettingsView {
        version: s.version,
        properties: flagless(
            ValueView::Dictionary(
                seq![
                    ("startup"@, section_property(s.startup)),
                    ("runtime-global"@, section_property(s.runtime_global)),
                    ("runtime-per-user"@, section_property(s.runtime_per_user)),
                ],
            ),
        ),
    }
}

fn double_property(bits: u64) -> (r: Property)
    ensures
        r@ == flagless(ValueView::Double(bits)),
{
    Property { any_flag: false, value: PropertyValue::Double(bits) }
}

fn setting_leaf(v: &ModSettingsValue) -> (r: Property)
    ensures
        r@ == flagless(leaf_of(v@)),
{
    let value = match v {
        ModSettingsValue::Empty => PropertyValue::Empty,
        ModSettingsValue::Bool(b) => PropertyValue::Bool(*b),
        ModSettingsValue::Number(x) => PropertyValue::Double(*x),
        ModSettingsValue::String(s) => PropertyValue::String(s.clone()),
        ModSettingsValue::Color { r, g, b, a } => {
            let mut color: Vec<(String, Property)> = Vec::new();
            color.push(("r".to_owned(), double_property(*r)));
            color.push(("g".to_owned(), double_property(*g)));
            color.push(("b".to_owned(), double_property(*b)));
            color.push(("a".to_owned(), double_property(*a)));
            proof {
                lemma_entries_view(color@);
                assert(entries_view(color@) =~= leaf_of(v@)->Dictionary_0);
            }
            PropertyValue::Dictionary(color)
        },
        ModSettingsValue::Integer(i) => PropertyValue::Integer(*i),
    };
    Property { any_flag: false, value }
}

fn setting_node(v: &ModSettingsValue) -> (r: Property)
    ensures
        r@ == setting_property(v@),
{
    let mut inner: Vec<(String, Property)> = Vec::new();
    inner.push(("value".to_owned(), setting_leaf(v)));
    proof {
        lemma_entries_view(inner@);
        assert(entries_view(inner@) =~= setting_property(v@).value->Dictionary_0);
    }
    Property { any_flag: false, value: PropertyValue::Dictionary(inner) }
}

/// The node of one section.
fn convert_simple_index_map(map: &IndexMap<String, ModSettingsValue>) -> (r: Property)
    ensures
        r@ == section_property(section_entries(*map)),
{
    let ghost m = section_entries(*map);
    let ghost target = section_property(m).value->Dictionary_0;
    let n = section_len(map);
    let mut entries: Vec<(String, Property)> = Vec::new();
    let mut i: usize = 0;
    while i < n
        invariant
            n == m.len(),
            m == section_entries(*map),
            target == section_property(m).value->Dictionary_0,
            i <= n,
            entries@.len() == i,
            forall|j: int|
                0 <= j < i ==> (#[trigger] entries@[j]).0@ == target[j].0 && entries@[j].1@
                    == target[j].1,
        decreases n - i,
    {
        // Below the length, the map always hands out a pair.
        if let Some((key, value)) = section_get_index(map, i) {
            entries.push((key.clone(), setting_node(value)));
        }
        i = i + 1;
    }
    proof {
        lemma_entries_view(entries@);
        assert(entries_view(entries@) =~= target);
    }
    Property { any_flag: false, value: PropertyValue::Dictionary(entries) }
}

impl Settings {
    /// The tree of a flat view. Every node it makes has its flag false.
    pub fn from_simple(simple: &ModSettings) -> (r: Settings)
        ensures
            r@ == settings_of_simple(simple@),
    {
        let startup = convert_simple_index_map(&simple.startup);
        let runtime_global = convert_simple_index_map(&simple.runtime_global);
        let runtime_per_user = convert_simple_index_map(&simple.runtime_per_user);
        let mut root: Vec<(String, Property)> = Vec::new();
        root.push(("startup".to_owned(), startup));
        root.push(("runtime-global".to_owned(), runtime_global));
        root.push(("runtime-per-user".to_owned(), runtime_per_user));
        proof {
            lemma_entries_view(root@);
            assert(entries_view(root@) =~= settings_of_simple(simple@).properties.value->Dictionary_0);
        }
        Settings {
            version: simple.factorio_version,
            properties: Property { any_flag: false, value: PropertyValue::Dictionary(root) },
        }
    }
}

// ---------------------------------------------------------------------------
// Laws of the projection

/// A section that the tree can carry: no name repeats and no setting is
/// empty (an empty value has no shape as a setting).
pub open spec fn section_representable(m: Seq<(Seq<char>, SettingValueView)>) -> bool {
    &&& keys_unique(m)
    &&& forall|i: int| 0 <= i < m.len() ==> !(#[trigger] m[i].1 is Empty)
}

pub open spec fn simple_representable(s: ModSettingsView) -> bool {
    &&& section_representable(s.startup)
    &&& section_representable(s.runtime_global)
    &&& section_representable(s.runtime_per_user)
}

proof fn lemma_setting_round_trip(v: SettingValueView)
    requires
        !(v is Empty),
    ensures
        setting_of(setting_property(v)) == Ok::<_, SettingError>(v),
{
    reveal_strlit("value");
    reveal_strlit("r");
    reveal_strlit("g");
    reveal_strlit("b");
    reveal_strlit("a");
    let inner = seq![("value"@, flagless(leaf_of(v)))];
    lemma_find_key_first(inner, "value"@, 0);
    if let SettingValueView::Color { r, g, b, a } = v {
        let color = leaf_of(v)->Dictionary_0;
        assert("r"@[0] == 'r' && "g"@[0] == 'g' && "b"@[0] == 'b' && "a"@[0] == 'a');
        lemma_find_key_first(color, "r"@, 0);
        assert(color[0].0 != "g"@);
        lemma_find_key_first(color, "g"@, 1);
        assert(color[0].0 != "b"@ && color[1].0 != "b"@);
        lemma_find_key_first(color, "b"@, 2);
        assert(color[0].0 != "a"@ && color[1].0 != "a"@ && color[2].0 != "a"@);
        lemma_find_key_first(color, "a"@, 3);
    }
}

proof fn lemma_section_round_trip(m: Seq<(Seq<char>, SettingValueView)>)
    requires
        section_representable(m),
    ensures
        settings_of(section_property(m).value->Dictionary_0) == Ok::<_, ProjectionErrorView>(m),
    decreases m.len(),
{
    let entries = section_property(m).value->Dictionary_0;
    if m.len() == 0 {
        assert(entries.len() == 0);
        assert(m =~= seq![]);
    } else {
        let n = m.len() - 1;
        let prefix = m.subrange(0, n);
        assert forall|i: int| 0 <= i < prefix.len() implies !(#[trigger] prefix[i].1 is Empty) by {
            assert(prefix[i] == m[i]);
        }
        assert forall|i: int, j: int| 0 <= i < j < prefix.len() implies #[trigger] prefix[i].0
            != #[trigger] prefix[j].0 by {
            assert(prefix[i] == m[i] && prefix[j] == m[j]);
        }
        lemma_section_round_trip(prefix);
        assert(entries.subrange(0, n) =~= section_property(prefix).value->Dictionary_0);
        assert(!(m[n].1 is Empty));
        lemma_setting_round_trip(m[n].1);
        assert forall|j: int| 0 <= j < prefix.len() implies #[trigger] prefix[j].0 != m[n].0 by {
            assert(prefix[j] == m[j]);
        }
        lemma_find_key_absent(prefix, m[n].0);
        assert(entries.len() == m.len());
        assert(entries[n] == (m[n].0, setting_property(m[n].1)));
        assert(dict_insert(prefix, m[n].0, m[n].1) == prefix.push((m[n].0, m[n].1)));
        assert(prefix.push((m[n].0, m[n].1)) =~= m);
        assert(settings_of(entries) == Ok::<_, ProjectionErrorView>(prefix.push((m[n].0, m[n].1))));
    }
}

/// Projecting the tree of a flat view gives the flat view back, for every
/// flat view whose sections the tree can carry.
pub proof fn lemma_projection_round_trip(s: ModSettingsView)
    requires
        simple_representable(s),
    ensures
        simple_of(settings_of_simple(s)) == Ok::<_, ProjectionErrorView>(s),
{
    reveal_strlit("startup");
    reveal_strlit("runtime-global");
    reveal_strlit("runtime-per-user");
    let root = settings_of_simple(s).properties.value->Dictionary_0;
    assert("startup"@.len() == 7);
    assert("runtime-global"@.len() == 14);
    assert("runtime-per-user"@.len() == 16);
    lemma_find_key_first(root, "startup"@, 0);
    assert(root[0].0 != "runtime-global"@);
    lemma_find_key_first(root, "runtime-global"@, 1);
    assert(root[0].0 != "runtime-per-user"@ && root[1].0 != "runtime-per-user"@);
    lemma_find_key_first(root, "runtime-per-user"@, 2);
    lemma_section_round_trip(s.startup);
    lemma_section_round_trip(s.runtime_global);
    lemma_section_round_trip(s.runtime_per_user);
}


/// A root dictionary without a `runtime-per-user` section does not project;
/// when the two sections checked before it project, the error names it.
pub proof fn lemma_missing_section(s: SettingsView)
    requires
        s.properties.value is Dictionary,
        dict_get(s.properties.value->Dictionary_0, "runtime-per-user"@) is None,
    ensures
        simple_of(s) is Err,
        section_of(s.properties.value->Dictionary_0, "startup"@) is Ok && section_of(
            s.properties.value->Dictionary_0,
            "runtime-global"@,
        ) is Ok ==> simple_of(s) == Err::<ModSettingsView, _>(
            ProjectionErrorView::MissingSection("runtime-per-user"@),
        ),
{
}

} // verus!
