//! The boot and partition delivery descriptions: what a stream of XML
//! events describes, element by element.

use vstd::prelude::*;

use vstd::string::{StringExecFns, StringSliceAdditionalSpecFns};
use vstd::utf8::{encode_utf8, is_char_boundary};

use crate::text::{bytes_contain, contains_bytes, str_eq};
use xml::reader::XmlEvent as ReaderEvent;

verus! {

/// The element that opens a boot delivery.
pub const BOOT_DELIVERY_ELEMENT: &'static str = "BOOT_DELIVERY";

/// The element of one boot configuration.
pub const CONFIGURATION_ELEMENT: &'static str = "CONFIGURATION";

/// The element whose `VALUE` names the platform and root hash.
pub const ATTRIBUTES_ELEMENT: &'static str = "ATTRIBUTES";

/// The element whose `REVISION` is the hardware configuration revision.
pub const HWCONFIG_ELEMENT: &'static str = "HWCONFIG";

/// The element whose child holds the boot configuration's path.
pub const BOOT_CONFIG_ELEMENT: &'static str = "BOOT_CONFIG";

/// The element whose `FILE` children are the boot images.
pub const BOOT_IMAGES_ELEMENT: &'static str = "BOOT_IMAGES";

/// The element whose `FILE` descendants are the partition images.
pub const PARTITION_IMAGES_ELEMENT: &'static str = "PARTITION_IMAGES";

/// A file element.
pub const FILE_ELEMENT: &'static str = "FILE";

/// The attribute that holds the delivery's space id.
pub const SPACE_ID_ATTRIBUTE: &'static str = "SPACE_ID";

/// The attribute that names a configuration.
pub const NAME_ATTRIBUTE: &'static str = "NAME";

/// The attribute that holds a value.
pub const VALUE_ATTRIBUTE: &'static str = "VALUE";

/// The attribute that holds a revision.
pub const REVISION_ATTRIBUTE: &'static str = "REVISION";

/// The attribute that holds a path.
pub const PATH_ATTRIBUTE: &'static str = "PATH";

/// The pattern of an `ATTRIBUTES` value: an eight-digit platform id, then a
/// 48- or 32-digit root hash.
pub const PLATFORM_PATTERN: &'static str = "PLATFORM_ID=\"([0-9A-F]{8})\";PLF_ROOT_HASH=\"([0-9A-F]{48}|[0-9A-F]{32})";

/// Names what `regex::Regex::new(pattern)` and then `Regex::captures(text)`
/// give: `None` where the pattern does not compile or nothing matches; else
/// the text of each capture group of the first match, group 0 being the
/// whole match, `None` for a group that took no part in it.
pub uninterp spec fn regex_captures(pattern: Seq<char>, text: Seq<char>) -> Option<
    Seq<Option<Seq<char>>>,
>;

/// The text of a group that may have taken no part.
pub open spec fn opt_view(o: Option<String>) -> Option<Seq<char>> {
    match o {
        Some(s) => Some(s@),
        None => None,
    }
}

/// The texts of a list of strings.
pub open spec fn strings_view(v: Seq<String>) -> Seq<Seq<char>> {
    v.map_values(|s: String| s@)
}

/// Compiles `pattern` with `regex::Regex::new` and returns the capture
/// groups of its first match in `text` (`Captures::iter`, each group's text
/// copied). What it returns is the named `regex_captures` of the pattern and
/// text; nothing more is claimed of the regex engine.
#[verifier::external_body]
fn capture_groups(pattern: &str, text: &str) -> (r: Option<Vec<Option<String>>>)
    ensures
        match regex_captures(pattern@, text@) {
            None => r is None,
            Some(g) => r is Some && r->0@.map_values(|o: Option<String>| opt_view(o)) == g,
        },
{
    let re = match regex::Regex::new(pattern) {
        Ok(re) => re,
        Err(_) => return None,
    };
    let caps = re.captures(text)?;
    let mut groups = Vec::new();
    for m in caps.iter() {
        groups.push(m.map(|m| m.as_str().to_string()));
    }
    Some(groups)
}

/// An attribute of an element: its local name and its value.
#[derive(Debug)]
pub struct XmlAttribute {
    pub name: String,
    pub value: String,
}

impl View for XmlAttribute {
    type V = (Seq<char>, Seq<char>);

    open spec fn view(&self) -> (Seq<char>, Seq<char>) {
        (self.name@, self.value@)
    }
}

/// The model of a list of attributes.
pub open spec fn attributes_view(v: Seq<XmlAttribute>) -> Seq<(Seq<char>, Seq<char>)> {
    v.map_values(|a: XmlAttribute| a@)
}

/// An event of an XML reader: an element opens (with its local name and
/// attributes) or closes, or anything else.
#[derive(Debug)]
pub enum XmlEvent {
    StartElement { name: String, attributes: Vec<XmlAttribute> },
    EndElement { name: String },
    Other,
}

/// The model of an XML event.
pub enum XmlEventView {
    Start(Seq<char>, Seq<(Seq<char>, Seq<char>)>),
    End(Seq<char>),
    Other,
}

impl View for XmlEvent {
    type V = XmlEventView;

    open spec fn view(&self) -> XmlEventView {
        match self {
            XmlEvent::StartElement { name, attributes } => XmlEventView::Start(
                name@,
                attributes_view(attributes@),
            ),
            XmlEvent::EndElement { name } => XmlEventView::End(name@),
            XmlEvent::Other => XmlEventView::Other,
        }
    }
}

/// The value of the first attribute called `name`.
pub open spec fn attr_value(attrs: Seq<(Seq<char>, Seq<char>)>, name: Seq<char>) -> Option<
    Seq<char>,
>
    decreases attrs.len(),
{
    if attrs.len() == 0 {
        None
    } else if attrs[0].0 == name {
        Some(attrs[0].1)
    } else {
        attr_value(attrs.drop_first(), name)
    }
}

/// The value of the first attribute called `name`, copied.
pub fn attribute_value(attributes: &[XmlAttribute], name: &str) -> (r: Option<String>)
    ensures
        opt_view(r) == attr_value(attributes_view(attributes@), name@),
{
    let ghost all = attributes_view(attributes@);
    let mut i: usize = 0;
    assert(all.skip(0) =~= all);
    while i < attributes.len()
        invariant
            i <= attributes.len(),
            all == attributes_view(attributes@),
            attr_value(all, name@) == attr_value(all.skip(i as int), name@),
        decreases attributes.len() - i,
    {
        let a = &attributes[i];
        assert(all.skip(i as int)[0] == a@);
        if str_eq(a.name.as_str(), name) {
            return Some(a.value.clone());
        }
        assert(all.skip(i as int).drop_first() =~= all.skip(i + 1));
        i = i + 1;
    }
    None
}

/// Why a stream of XML events was refused.
#[derive(Clone, Copy, Debug, PartialEq, Eq, Structural)]
pub enum XmlError {
    /// An element closed with no element open.
    StackUnderflow,
    /// An element closed other than the one open last.
    StackOutOfSync,
}

/// Closing `ended` on the stack of open elements: it must be the last one
/// open.
pub open spec fn spec_pop_element(stack: Seq<Seq<char>>, ended: Seq<char>) -> Result<
    Seq<Seq<char>>,
    XmlError,
> {
    if stack.len() == 0 {
        Err(XmlError::StackUnderflow)
    } else if stack.last() != ended {
        Err(XmlError::StackOutOfSync)
    } else {
        Ok(stack.drop_last())
    }
}

/// Closes `ended`, the element open last; refused when no element is open
/// or another one is open last. The element open last is taken off the
/// stack even when it is not `ended`.
pub fn pop_element(element_stack: &mut Vec<String>, ended_name: &str) -> (r: Result<(), XmlError>)
    ensures
        old(element_stack)@.len() > 0 ==> strings_view(final(element_stack)@) == strings_view(
            old(element_stack)@,
        ).drop_last(),
        old(element_stack)@.len() == 0 ==> final(element_stack)@.len() == 0,
        match spec_pop_element(strings_view(old(element_stack)@), ended_name@) {
            Ok(st) => r is Ok && strings_view(final(element_stack)@) == st,
            Err(e) => r == Err::<(), XmlError>(e),
        },
{
    let ghost before = strings_view(element_stack@);
    let started = match element_stack.pop() {
        None => {
            return Err(XmlError::StackUnderflow);
        },
        Some(s) => s,
    };
    assert(strings_view(element_stack@) =~= before.drop_last());
    if !str_eq(started.as_str(), ended_name) {
        return Err(XmlError::StackOutOfSync);
    }
    Ok(())
}

/// Some element of the stack is `name`.
pub fn stack_contains(stack: &Vec<String>, name: &str) -> (r: bool)
    ensures
        r == strings_view(stack@).contains(name@),
{
    let mut i: usize = 0;
    while i < stack.len()
        invariant
            i <= stack.len(),
            forall|k: int| 0 <= k < i ==> stack@[k]@ != name@,
        decreases stack.len() - i,
    {
        if str_eq(stack[i].as_str(), name) {
            assert(strings_view(stack@)[i as int] == name@);
            return true;
        }
        i = i + 1;
    }
    assert forall|k: int| 0 <= k < strings_view(stack@).len() implies strings_view(stack@)[k]
        != name@ by {
        assert(strings_view(stack@)[k] == stack@[k]@);
    }
    false
}

/// The element open last is `name`.
pub fn stack_top_is(stack: &Vec<String>, name: &str) -> (r: bool)
    ensures
        r == (strings_view(stack@).len() > 0 && strings_view(stack@).last() == name@),
{
    if stack.len() == 0 {
        return false;
    }
    str_eq(stack[stack.len() - 1].as_str(), name)
}

/// A boot delivery: its space id, when the opening element gives one, and
/// its boot configurations in order.
#[derive(Debug)]
pub struct BootDelivery {
    pub space_id: Option<String>,
    pub configurations: Vec<BootConfiguration>,
}

/// One boot configuration: its name, the platform and root hash it is for,
/// its hardware revision, the trim-area file to write and the boot images.
#[derive(Debug)]
pub struct BootConfiguration {
    pub name: String,
    pub platform_id: String,
    pub plf_root_hash: String,
    pub hw_config_rev: String,
    pub boot_config: String,
    pub boot_images: Vec<String>,
}

/// The model of a boot configuration.
pub struct BootConfigurationView {
    pub name: Seq<char>,
    pub platform_id: Seq<char>,
    pub plf_root_hash: Seq<char>,
    pub hw_config_rev: Seq<char>,
    pub boot_config: Seq<char>,
    pub boot_images: Seq<Seq<char>>,
}

impl View for BootConfiguration {
    type V = BootConfigurationView;

    open spec fn view(&self) -> BootConfigurationView {
        BootConfigurationView {
            name: self.name@,
            platform_id: self.platform_id@,
            plf_root_hash: self.plf_root_hash@,
            hw_config_rev: self.hw_config_rev@,
            boot_config: self.boot_config@,
            boot_images: strings_view(self.boot_images@),
        }
    }
}

/// The model of a list of boot configurations.
pub open spec fn configurations_view(v: Seq<BootConfiguration>) -> Seq<BootConfigurationView> {
    v.map_values(|c: BootConfiguration| c@)
}

impl View for BootDelivery {
    type V = (Option<Seq<char>>, Seq<BootConfigurationView>);

    open spec fn view(&self) -> (Option<Seq<char>>, Seq<BootConfigurationView>) {
        (opt_view(self.space_id), configurations_view(self.configurations@))
    }
}

/// A boot configuration being read: what is known of it so far.
#[derive(Debug)]
pub struct BootConfigurationBuilder {
    pub name: Option<String>,
    pub platform_id: String,
    pub plf_root_hash: String,
    pub hw_config_rev: Option<String>,
    pub boot_config: Option<String>,
    pub boot_images: Vec<String>,
}

/// The model of a boot configuration being read.
pub struct BuilderView {
    pub name: Option<Seq<char>>,
    pub platform_id: Seq<char>,
    pub plf_root_hash: Seq<char>,
    pub hw_config_rev: Option<Seq<char>>,
    pub boot_config: Option<Seq<char>>,
    pub boot_images: Seq<Seq<char>>,
}

impl View for BootConfigurationBuilder {
    type V = BuilderView;

    open spec fn view(&self) -> BuilderView {
        BuilderView {
            name: opt_view(self.name),
            platform_id: self.platform_id@,
            plf_root_hash: self.plf_root_hash@,
            hw_config_rev: opt_view(self.hw_config_rev),
            boot_config: opt_view(self.boot_config),
            boot_images: strings_view(self.boot_images@),
        }
    }
}

/// A builder that knows nothing yet.
pub open spec fn builder_default() -> BuilderView {
    BuilderView {
        name: None,
        platform_id: Seq::empty(),
        plf_root_hash: Seq::empty(),
        hw_config_rev: None,
        boot_config: None,
        boot_images: Seq::empty(),
    }
}

/// The configuration a builder holds, once its name, hardware revision and
/// boot configuration are known.
pub open spec fn spec_build(b: BuilderView) -> Option<BootConfigurationView> {
    match (b.name, b.hw_config_rev, b.boot_config) {
        (Some(name), Some(hw_config_rev), Some(boot_config)) => Some(
            BootConfigurationView {
                name,
                platform_id: b.platform_id,
                plf_root_hash: b.plf_root_hash,
                hw_config_rev,
                boot_config,
                boot_images: b.boot_images,
            },
        ),
        _ => None,
    }
}

impl BootConfiguration {
    /// A builder for a configuration, knowing nothing yet.
    pub fn builder() -> (r: BootConfigurationBuilder)
        ensures
            r@ == builder_default(),
    {
        let r = BootConfigurationBuilder {
            name: None,
            platform_id: String::new(),
            plf_root_hash: String::new(),
            hw_config_rev: None,
            boot_config: None,
            boot_images: Vec::new(),
        };
        assert(strings_view(r.boot_images@) =~= Seq::<Seq<char>>::empty());
        r
    }
}

impl Default for BootConfigurationBuilder {
    fn default() -> (r: BootConfigurationBuilder)
        ensures
            r@ == builder_default(),
    {
        BootConfiguration::builder()
    }
}

impl Default for BootDelivery {
    fn default() -> (r: BootDelivery)
        ensures
            r@ == (None::<Seq<char>>, Seq::<BootConfigurationView>::empty()),
    {
        let r = BootDelivery { space_id: None, configurations: Vec::new() };
        assert(configurations_view(r.configurations@) =~= Seq::<BootConfigurationView>::empty());
        r
    }
}

impl Default for BootConfiguration {
    fn default() -> (r: BootConfiguration)
        ensures
            r@ == (BootConfigurationView {
                name: Seq::empty(),
                platform_id: Seq::empty(),
                plf_root_hash: Seq::empty(),
                hw_config_rev: Seq::empty(),
                boot_config: Seq::empty(),
                boot_images: Seq::empty(),
            }),
    {
        let r = BootConfiguration {
            name: String::new(),
            platform_id: String::new(),
            plf_root_hash: String::new(),
            hw_config_rev: String::new(),
            boot_config: String::new(),
            boot_images: Vec::new(),
        };
        assert(strings_view(r.boot_images@) =~= Seq::<Seq<char>>::empty());
        r
    }
}

impl BootConfigurationBuilder {
    /// The configuration, when its name, hardware revision and boot
    /// configuration are known; `None` otherwise.
    pub fn build(self) -> (r: Option<BootConfiguration>)
        ensures
            match spec_build(self@) {
                Some(c) => r matches Some(bc) && bc@ == c,
                None => r is None,
            },
    {
        let name = match self.name {
            Some(n) => n,
            None => {
                return None;
            },
        };
        let hw_config_rev = match self.hw_config_rev {
            Some(h) => h,
            None => {
                return None;
            },
        };
        let boot_config = match self.boot_config {
            Some(c) => c,
            None => {
                return None;
            },
        };
        Some(
            BootConfiguration {
                name,
                platform_id: self.platform_id,
                plf_root_hash: self.plf_root_hash,
                hw_config_rev,
                boot_config,
                boot_images: self.boot_images,
            },
        )
    }
}

/// Where the reading of a boot delivery stands: the elements open, the
/// space id and configurations read, and the configuration being read.
pub struct BootModel {
    pub stack: Seq<Seq<char>>,
    pub space_id: Option<Seq<char>>,
    pub configurations: Seq<BootConfigurationView>,
    pub builder: BuilderView,
}

/// What reading one event does: go on, refuse the stream, or abort (where
/// a configuration closes incomplete, or a platform match lacks a group).
pub enum BootStep {
    Next(BootModel),
    Fail(XmlError),
    Abort,
}

/// The position before any event.
pub open spec fn boot_initial() -> BootModel {
    BootModel {
        stack: Seq::empty(),
        space_id: None,
        configurations: Seq::empty(),
        builder: builder_default(),
    }
}

/// An `ATTRIBUTES` element: a `VALUE` that matches the platform pattern
/// gives the platform id and root hash; `None` where a matched group is
/// missing.
pub open spec fn platform_update(b: BuilderView, attrs: Seq<(Seq<char>, Seq<char>)>) -> Option<
    BuilderView,
> {
    match attr_value(attrs, VALUE_ATTRIBUTE@) {
        None => Some(b),
        Some(val) => match regex_captures(PLATFORM_PATTERN@, val) {
            None => Some(b),
            Some(g) => platform_groups_update(b, g),
        },
    }
}

/// What the capture groups of a platform match give: group 1 is the
/// platform id and group 2 the root hash; `None` where either is missing.
pub open spec fn platform_groups_update(b: BuilderView, g: Seq<Option<Seq<char>>>) -> Option<
    BuilderView,
> {
    if g.len() > 2 && g[1] is Some && g[2] is Some {
        Some(BuilderView { platform_id: g[1]->0, plf_root_hash: g[2]->0, ..b })
    } else {
        None
    }
}

/// What an element opening inside a configuration tells: the platform, the
/// first hardware revision, the first boot configuration path, and each
/// boot image path.
pub open spec fn config_child_update(
    b: BuilderView,
    stack: Seq<Seq<char>>,
    name: Seq<char>,
    attrs: Seq<(Seq<char>, Seq<char>)>,
) -> Option<BuilderView> {
    let b1 = if name == ATTRIBUTES_ELEMENT@ {
        platform_update(b, attrs)
    } else {
        Some(b)
    };
    match b1 {
        None => None,
        Some(b1) => {
            let b2 = if name == HWCONFIG_ELEMENT@ && b1.hw_config_rev is None {
                BuilderView { hw_config_rev: attr_value(attrs, REVISION_ATTRIBUTE@), ..b1 }
            } else {
                b1
            };
            let top_is = |e: Seq<char>| stack.len() > 0 && stack.last() == e;
            let b3 = if top_is(BOOT_CONFIG_ELEMENT@) && b2.boot_config is None {
                BuilderView { boot_config: attr_value(attrs, PATH_ATTRIBUTE@), ..b2 }
            } else {
                b2
            };
            let b4 = if top_is(BOOT_IMAGES_ELEMENT@) && name == FILE_ELEMENT@ {
                match attr_value(attrs, PATH_ATTRIBUTE@) {
                    Some(p) => BuilderView { boot_images: b3.boot_images.push(p), ..b3 },
                    None => b3,
                }
            } else {
                b3
            };
            Some(b4)
        },
    }
}

/// Reading one event of a boot delivery.
pub open spec fn boot_step(m: BootModel, ev: XmlEventView) -> BootStep {
    match ev {
        XmlEventView::Start(name, attrs) => {
            let space_id = if name == BOOT_DELIVERY_ELEMENT@ && m.stack.len() == 0
                && m.space_id is None {
                attr_value(attrs, SPACE_ID_ATTRIBUTE@)
            } else {
                m.space_id
            };
            let b0 = if name == CONFIGURATION_ELEMENT@ {
                BuilderView { name: attr_value(attrs, NAME_ATTRIBUTE@), ..builder_default() }
            } else {
                m.builder
            };
            let b = if m.stack.contains(CONFIGURATION_ELEMENT@) {
                config_child_update(b0, m.stack, name, attrs)
            } else {
                Some(b0)
            };
            match b {
                None => BootStep::Abort,
                Some(b) => BootStep::Next(
                    BootModel {
                        stack: m.stack.push(name),
                        space_id,
                        configurations: m.configurations,
                        builder: b,
                    },
                ),
            }
        },
        XmlEventView::End(name) => match spec_pop_element(m.stack, name) {
            Err(e) => BootStep::Fail(e),
            Ok(stack) => if name == CONFIGURATION_ELEMENT@ {
                match spec_build(m.builder) {
                    None => BootStep::Abort,
                    Some(c) => BootStep::Next(
                        BootModel {
                            stack,
                            space_id: m.space_id,
                            configurations: m.configurations.push(c),
                            builder: builder_default(),
                        },
                    ),
                }
            } else {
                BootStep::Next(BootModel { stack, ..m })
            },
        },
        XmlEventView::Other => BootStep::Next(m),
    }
}

/// Reading the events in order, stopping at the first refusal or abort.
pub open spec fn boot_run(m: BootModel, events: Seq<XmlEventView>) -> BootStep
    decreases events.len(),
{
    if events.len() == 0 {
        BootStep::Next(m)
    } else {
        match boot_run(m, events.drop_last()) {
            BootStep::Next(m2) => boot_step(m2, events.last()),
            other => other,
        }
    }
}

/// Sets the platform id and root hash of `builder` from the capture groups
/// of a platform match, as `platform_groups_update` states; `false`, with
/// the builder unchanged, where group 1 or 2 is missing.
pub fn platform_from_groups(groups: &Vec<Option<String>>, builder: &mut BootConfigurationBuilder) -> (r: bool)
    ensures
        match platform_groups_update(old(builder)@, groups@.map_values(|o: Option<String>| opt_view(o))) {
            None => !r && final(builder)@ == old(builder)@,
            Some(b) => r && final(builder)@ == b,
        },
{
    let ghost gv = groups@.map_values(|o: Option<String>| opt_view(o));
    if groups.len() <= 2 {
        return false;
    }
    assert(gv[1] == opt_view(groups@[1]));
    assert(gv[2] == opt_view(groups@[2]));
    match (&groups[1], &groups[2]) {
        (Some(platform), Some(hash)) => {
            builder.platform_id = platform.clone();
            builder.plf_root_hash = hash.clone();
            true
        },
        _ => false,
    }
}

/// Reads a boot delivery event by event.
pub struct BootDeliveryParser {
    element_stack: Vec<String>,
    boot_delivery: BootDelivery,
    builder: BootConfigurationBuilder,
}

impl View for BootDeliveryParser {
    type V = BootModel;

    closed spec fn view(&self) -> BootModel {
        BootModel {
            stack: strings_view(self.element_stack@),
            space_id: opt_view(self.boot_delivery.space_id),
            configurations: configurations_view(self.boot_delivery.configurations@),
            builder: self.builder@,
        }
    }
}

impl BootDeliveryParser {
    /// A parser before any event.
    pub fn new() -> (r: BootDeliveryParser)
        ensures
            r@ == boot_initial(),
    {
        let r = BootDeliveryParser {
            element_stack: Vec::new(),
            boot_delivery: BootDelivery { space_id: None, configurations: Vec::new() },
            builder: BootConfiguration::builder(),
        };
        assert(strings_view(r.element_stack@) =~= Seq::<Seq<char>>::empty());
        assert(configurations_view(r.boot_delivery.configurations@) =~= Seq::<
            BootConfigurationView,
        >::empty());
        r
    }

    fn platform_of(attributes: &[XmlAttribute], builder: &mut BootConfigurationBuilder) -> (r: bool)
        ensures
            match platform_update(old(builder)@, attributes_view(attributes@)) {
                None => !r,
                Some(b) => r && final(builder)@ == b,
            },
    {
        let val = match attribute_value(attributes, VALUE_ATTRIBUTE) {
            None => {
                return true;
            },
            Some(v) => v,
        };
        let groups = match capture_groups(PLATFORM_PATTERN, val.as_str()) {
            None => {
                return true;
            },
            Some(g) => g,
        };
        platform_from_groups(&groups, builder)
    }

    fn config_child(
        stack: &Vec<String>,
        name: &str,
        attributes: &[XmlAttribute],
        builder: &mut BootConfigurationBuilder,
    ) -> (r: bool)
        ensures
            match config_child_update(old(builder)@, strings_view(stack@), name@, attributes_view(attributes@)) {
                None => !r,
                Some(b) => r && final(builder)@ == b,
            },
    {
        if str_eq(name, ATTRIBUTES_ELEMENT) {
            if !Self::platform_of(attributes, builder) {
                return false;
            }
        }
        if str_eq(name, HWCONFIG_ELEMENT) && builder.hw_config_rev.is_none() {
            builder.hw_config_rev = attribute_value(attributes, REVISION_ATTRIBUTE);
        }
        if stack_top_is(stack, BOOT_CONFIG_ELEMENT) && builder.boot_config.is_none() {
            builder.boot_config = attribute_value(attributes, PATH_ATTRIBUTE);
        }
        if stack_top_is(stack, BOOT_IMAGES_ELEMENT) && str_eq(name, FILE_ELEMENT) {
            match attribute_value(attributes, PATH_ATTRIBUTE) {
                Some(p) => {
                    let ghost before = builder.boot_images@;
                    builder.boot_images.push(p);
                    assert(strings_view(builder.boot_images@) =~= strings_view(before).push(p@));
                },
                None => {},
            }
        }
        true
    }

    /// Reading `event` would abort: it closes a configuration that lacks a
    /// name, hardware revision or boot configuration, or matches the
    /// platform pattern without both of its groups.
    pub fn would_abort(&self, event: &XmlEvent) -> (r: bool)
        ensures
            r == (boot_step(self@, event@) is Abort),
    {
        match event {
            XmlEvent::StartElement { name, attributes } => {
                if !stack_contains(&self.element_stack, CONFIGURATION_ELEMENT) {
                    return false;
                }
                let mut b = if str_eq(name.as_str(), CONFIGURATION_ELEMENT) {
                    BootConfiguration::builder()
                } else {
                    self.builder.copy()
                };
                if str_eq(name.as_str(), CONFIGURATION_ELEMENT) {
                    b.name = attribute_value(attributes.as_slice(), NAME_ATTRIBUTE);
                }
                !Self::config_child(&self.element_stack, name.as_str(), attributes.as_slice(), &mut b)
            },
            XmlEvent::EndElement { name } => {
                if !stack_top_is(&self.element_stack, name.as_str()) {
                    return false;
                }
                str_eq(name.as_str(), CONFIGURATION_ELEMENT) && !self.builder.is_complete()
            },
            XmlEvent::Other => false,
        }
    }

    /// Reads one event.
    pub fn feed(&mut self, event: &XmlEvent) -> (r: Result<(), XmlError>)
        requires
            !(boot_step(old(self)@, event@) is Abort),
        ensures
            match boot_step(old(self)@, event@) {
                BootStep::Next(m) => r is Ok && final(self)@ == m,
                BootStep::Fail(e) => r == Err::<(), XmlError>(e),
                BootStep::Abort => false,
            },
    {
        match event {
            XmlEvent::StartElement { name, attributes } => {
                if str_eq(name.as_str(), BOOT_DELIVERY_ELEMENT) && self.element_stack.len() == 0
                    && self.boot_delivery.space_id.is_none() {
                    self.boot_delivery.space_id = attribute_value(attributes.as_slice(), SPACE_ID_ATTRIBUTE);
                }
                if str_eq(name.as_str(), CONFIGURATION_ELEMENT) {
                    self.builder = BootConfiguration::builder();
                    self.builder.name = attribute_value(attributes.as_slice(), NAME_ATTRIBUTE);
                }
                if stack_contains(&self.element_stack, CONFIGURATION_ELEMENT) {
                    let mut b = BootConfiguration::builder();
                    std::mem::swap(&mut b, &mut self.builder);
                    let ok = Self::config_child(&self.element_stack, name.as_str(), attributes.as_slice(), &mut b);
                    self.builder = b;
                    if !ok {
                        return Ok(());
                    }
                }
                let ghost before = self.element_stack@;
                self.element_stack.push(name.clone());
                assert(strings_view(self.element_stack@) =~= strings_view(before).push(
                    event@->Start_0,
                ));
                Ok(())
            },
            XmlEvent::EndElement { name } => {
                pop_element(&mut self.element_stack, name.as_str())?;
                if str_eq(name.as_str(), CONFIGURATION_ELEMENT) {
                    let mut b = BootConfiguration::builder();
                    std::mem::swap(&mut b, &mut self.builder);
                    match b.build() {
                        Some(bc) => {
                            let ghost before = self.boot_delivery.configurations@;
                            self.boot_delivery.configurations.push(bc);
                            assert(configurations_view(self.boot_delivery.configurations@)
                                =~= configurations_view(before).push(bc@));
                        },
                        None => {},
                    }
                }
                Ok(())
            },
            XmlEvent::Other => Ok(()),
        }
    }

    /// The boot delivery read.
    pub fn finish(self) -> (r: BootDelivery)
        ensures
            r@ == (self@.space_id, self@.configurations),
    {
        self.boot_delivery
    }
}

impl BootConfigurationBuilder {
    /// A copy of the builder.
    pub fn copy(&self) -> (r: BootConfigurationBuilder)
        ensures
            r@ == self@,
    {
        BootConfigurationBuilder {
            name: self.name.clone(),
            platform_id: self.platform_id.clone(),
            plf_root_hash: self.plf_root_hash.clone(),
            hw_config_rev: self.hw_config_rev.clone(),
            boot_config: self.boot_config.clone(),
            boot_images: copy_strings(&self.boot_images),
        }
    }

    /// The name, hardware revision and boot configuration are known.
    pub fn is_complete(&self) -> (r: bool)
        ensures
            r == (spec_build(self@) is Some),
    {
        self.name.is_some() && self.hw_config_rev.is_some() && self.boot_config.is_some()
    }
}

/// A copy of a list of strings.
pub fn copy_strings(v: &Vec<String>) -> (r: Vec<String>)
    ensures
        strings_view(r@) == strings_view(v@),
{
    let mut r: Vec<String> = Vec::new();
    let mut i: usize = 0;
    while i < v.len()
        invariant
            i <= v.len(),
            strings_view(r@) =~= strings_view(v@).take(i as int),
        decreases v.len() - i,
    {
        let ghost before = r@;
        r.push(v[i].clone());
        assert(strings_view(r@) =~= strings_view(before).push(v@[i as int]@));
        i = i + 1;
    }
    assert(strings_view(v@).take(v.len() as int) =~= strings_view(v@));
    r
}

/// Reads a whole boot delivery from its events: the delivery, or the error
/// that refuses the events; `None` where reading would abort.
pub fn boot_delivery_from_events(events: &Vec<XmlEvent>) -> (r: Option<Result<BootDelivery, XmlError>>)
    ensures
        match boot_run(boot_initial(), events_view(events@)) {
            BootStep::Abort => r is None,
            BootStep::Fail(e) => r == Some(Err::<BootDelivery, XmlError>(e)),
            BootStep::Next(m) => r matches Some(Ok(bd)) && bd@ == (m.space_id, m.configurations),
        },
{
    let mut parser = BootDeliveryParser::new();
    let mut i: usize = 0;
    while i < events.len()
        invariant
            i <= events.len(),
            boot_run(boot_initial(), events_view(events@.take(i as int))) == BootStep::Next(parser@),
        decreases events.len() - i,
    {
        let event = &events[i];
        let ghost prefix = events_view(events@.take(i + 1));
        assert(prefix.drop_last() =~= events_view(events@.take(i as int)));
        assert(prefix.last() == event@);
        assert(events_view(events@).take(i + 1) =~= prefix);
        assert(boot_run(boot_initial(), prefix) == boot_step(parser@, event@));
        if parser.would_abort(event) {
            proof {
                lemma_boot_run_stops(events_view(events@), (i + 1) as int);
            }
            return None;
        }
        match parser.feed(event) {
            Ok(()) => {},
            Err(e) => {
                proof {
                    lemma_boot_run_stops(events_view(events@), (i + 1) as int);
                }
                return Some(Err(e));
            },
        }
        i = i + 1;
    }
    assert(events@.take(events.len() as int) =~= events@);
    Some(Ok(parser.finish()))
}

/// The models of a list of events.
pub open spec fn events_view(v: Seq<XmlEvent>) -> Seq<XmlEventView> {
    v.map_values(|e: XmlEvent| e@)
}

/// Once reading stops at an event, reading further events changes nothing.
proof fn lemma_boot_run_stops(events: Seq<XmlEventView>, k: int)
    requires
        0 <= k <= events.len(),
        !(boot_run(boot_initial(), events.take(k)) is Next),
    ensures
        boot_run(boot_initial(), events) == boot_run(boot_initial(), events.take(k)),
    decreases events.len() - k,
{
    if k < events.len() {
        assert(events.take(k + 1).drop_last() =~= events.take(k));
        assert(boot_run(boot_initial(), events.take(k + 1)) == boot_run(boot_initial(), events.take(k)));
        lemma_boot_run_stops(events, k + 1);
    } else {
        assert(events.take(k) =~= events);
    }
}

/// Where the reading of a partition delivery stands: the elements open and
/// the image paths found.
pub struct PartitionModel {
    pub stack: Seq<Seq<char>>,
    pub files: Seq<Seq<char>>,
}

/// Reading one event of a partition delivery: a `FILE` element inside a
/// `PARTITION_IMAGES` element adds its `PATH`.
pub open spec fn partition_step(m: PartitionModel, ev: XmlEventView) -> Result<PartitionModel, XmlError> {
    match ev {
        XmlEventView::Start(name, attrs) => {
            let files = if name == FILE_ELEMENT@ && m.stack.contains(PARTITION_IMAGES_ELEMENT@) {
                match attr_value(attrs, PATH_ATTRIBUTE@) {
                    Some(p) => m.files.push(p),
                    None => m.files,
                }
            } else {
                m.files
            };
            Ok(PartitionModel { stack: m.stack.push(name), files })
        },
        XmlEventView::End(name) => match spec_pop_element(m.stack, name) {
            Err(e) => Err(e),
            Ok(stack) => Ok(PartitionModel { stack, files: m.files }),
        },
        XmlEventView::Other => Ok(m),
    }
}

/// Reading the events in order, stopping at the first refusal.
pub open spec fn partition_run(m: PartitionModel, events: Seq<XmlEventView>) -> Result<
    PartitionModel,
    XmlError,
>
    decreases events.len(),
{
    if events.len() == 0 {
        Ok(m)
    } else {
        match partition_run(m, events.drop_last()) {
            Ok(m2) => partition_step(m2, events.last()),
            Err(e) => Err(e),
        }
    }
}

/// The position before any event of a partition delivery.
pub open spec fn partition_initial() -> PartitionModel {
    PartitionModel { stack: Seq::empty(), files: Seq::empty() }
}

/// Reads a partition delivery event by event.
pub struct PartitionDeliveryParser {
    element_stack: Vec<String>,
    partition_files: Vec<String>,
}

impl View for PartitionDeliveryParser {
    type V = PartitionModel;

    closed spec fn view(&self) -> PartitionModel {
        PartitionModel {
            stack: strings_view(self.element_stack@),
            files: strings_view(self.partition_files@),
        }
    }
}

impl PartitionDeliveryParser {
    /// A parser before any event.
    pub fn new() -> (r: PartitionDeliveryParser)
        ensures
            r@ == partition_initial(),
    {
        let r = PartitionDeliveryParser { element_stack: Vec::new(), partition_files: Vec::new() };
        assert(strings_view(r.element_stack@) =~= Seq::<Seq<char>>::empty());
        assert(strings_view(r.partition_files@) =~= Seq::<Seq<char>>::empty());
        r
    }

    /// Reads one event.
    pub fn feed(&mut self, event: &XmlEvent) -> (r: Result<(), XmlError>)
        ensures
            match partition_step(old(self)@, event@) {
                Ok(m) => r is Ok && final(self)@ == m,
                Err(e) => r == Err::<(), XmlError>(e),
            },
    {
        match event {
            XmlEvent::StartElement { name, attributes } => {
                let is_file = str_eq(name.as_str(), FILE_ELEMENT);
                let in_partition_images = stack_contains(&self.element_stack, PARTITION_IMAGES_ELEMENT);
                if in_partition_images && is_file {
                    match attribute_value(attributes.as_slice(), PATH_ATTRIBUTE) {
                        Some(path) => {
                            let ghost before = self.partition_files@;
                            self.partition_files.push(path);
                            assert(strings_view(self.partition_files@) =~= strings_view(before).push(path@));
                        },
                        None => {},
                    }
                }
                let ghost before = self.element_stack@;
                self.element_stack.push(name.clone());
                assert(strings_view(self.element_stack@) =~= strings_view(before).push(name@));
                Ok(())
            },
            XmlEvent::EndElement { name } => pop_element(&mut self.element_stack, name.as_str()),
            XmlEvent::Other => Ok(()),
        }
    }

    /// The image paths found, in order.
    pub fn finish(self) -> (r: Vec<String>)
        ensures
            strings_view(r@) == self@.files,
    {
        self.partition_files
    }
}

/// Reads a whole partition delivery from its events: the paths of the
/// `FILE` elements inside `PARTITION_IMAGES`, in order, or the error that
/// refuses the events.
pub fn partition_delivery_from_events(events: &Vec<XmlEvent>) -> (r: Result<Vec<String>, XmlError>)
    ensures
        match partition_run(partition_initial(), events_view(events@)) {
            Ok(m) => r matches Ok(files) && strings_view(files@) == m.files,
            Err(e) => r == Err::<Vec<String>, XmlError>(e),
        },
{
    let mut parser = PartitionDeliveryParser::new();
    let mut i: usize = 0;
    while i < events.len()
        invariant
            i <= events.len(),
            partition_run(partition_initial(), events_view(events@.take(i as int))) == Ok::<
                PartitionModel,
                XmlError,
            >(parser@),
        decreases events.len() - i,
    {
        let event = &events[i];
        let ghost prefix = events_view(events@.take(i + 1));
        assert(prefix.drop_last() =~= events_view(events@.take(i as int)));
        assert(prefix.last() == event@);
        assert(events_view(events@).take(i + 1) =~= prefix);
        match parser.feed(event) {
            Ok(()) => {},
            Err(e) => {
                proof {
                    lemma_partition_run_stops(events_view(events@), (i + 1) as int);
                }
                return Err(e);
            },
        }
        i = i + 1;
    }
    assert(events@.take(events.len() as int) =~= events@);
    Ok(parser.finish())
}

proof fn lemma_partition_run_stops(events: Seq<XmlEventView>, k: int)
    requires
        0 <= k <= events.len(),
        partition_run(partition_initial(), events.take(k)) is Err,
    ensures
        partition_run(partition_initial(), events) == partition_run(partition_initial(), events.take(k)),
    decreases events.len() - k,
{
    if k < events.len() {
        assert(events.take(k + 1).drop_last() =~= events.take(k));
        lemma_partition_run_stops(events, k + 1);
    } else {
        assert(events.take(k) =~= events);
    }
}

/// The platform id that boot configurations are written for: the device's
/// platform id with its first two bytes made `00`.
pub fn boot_platform_id(platform_id: &str) -> (r: String)
    requires
        vstd::utf8::valid_utf8(platform_id.spec_bytes()) && is_char_boundary(
            platform_id.spec_bytes(),
            2,
        ),
    ensures
        encode_utf8(r@) == seq![48u8, 48u8] + platform_id.spec_bytes().skip(2),
{
    proof {
        vstd::utf8::encode_utf8_valid_utf8(platform_id@);
    }
    let (_, rest) = platform_id.split_at(2);
    let mut r = String::from_str("00");
    r.append(rest);
    proof {
        reveal_strlit("00");
        vstd::utf8::encode_utf8_valid_utf8(rest@);
        assert(encode_utf8("00"@) =~= seq![48u8, 48u8]) by {
            assert("00"@ =~= seq!['0', '0']);
            assert(vstd::utf8::is_ascii_chars("00"@));
            vstd::utf8::is_ascii_chars_encode_utf8("00"@);
        }
        lemma_encode_concat("00"@, rest@);
        assert(rest.spec_bytes() =~= platform_id.spec_bytes().skip(2));
    }
    r
}

proof fn lemma_encode_concat(a: Seq<char>, b: Seq<char>)
    ensures
        encode_utf8(a + b) == encode_utf8(a) + encode_utf8(b),
    decreases a.len(),
{
    if a.len() == 0 {
        assert(a + b =~= b);
        assert(encode_utf8(a) + encode_utf8(b) =~= encode_utf8(b));
    } else {
        assert((a + b).drop_first() =~= a.drop_first() + b);
        lemma_encode_concat(a.drop_first(), b);
        assert(encode_utf8(a + b) =~= encode_utf8(a) + encode_utf8(b));
    }
}

/// A boot configuration is for this device: its platform id is the boot
/// platform id, and the device's root key hash holds its root hash.
pub fn configuration_applies(bc: &BootConfiguration, platform_id: &str, root_key_hash: &str) -> (r: bool)
    ensures
        r == (bc.platform_id@ == platform_id@ && bytes_contain(
            root_key_hash.spec_bytes(),
            encode_utf8(bc.plf_root_hash@),
        )),
{
    str_eq(bc.platform_id.as_str(), platform_id) && contains_bytes(
        root_key_hash.as_bytes(),
        bc.plf_root_hash.as_str().as_bytes(),
    )
}

/// `bootloader`.
pub open spec fn bootloader_word() -> Seq<u8> {
    seq![98u8, 111u8, 111u8, 116u8, 108u8, 111u8, 97u8, 100u8, 101u8, 114u8]
}

/// Of a boot configuration's images, only those whose path holds
/// `bootloader` are flashed.
pub fn is_bootloader_image(path: &str) -> (r: bool)
    ensures
        r == bytes_contain(path.spec_bytes(), bootloader_word()),
{
    let word: Vec<u8> = vec![98u8, 111u8, 111u8, 116u8, 108u8, 111u8, 97u8, 100u8, 101u8, 114u8];
    contains_bytes(path.as_bytes(), word.as_slice())
}

/// Closing the element just opened takes back exactly what opening it
/// pushed.
pub proof fn lemma_pop_after_push(stack: Seq<Seq<char>>, name: Seq<char>)
    ensures
        spec_pop_element(stack.push(name), name) == Ok::<Seq<Seq<char>>, XmlError>(stack),
{
    assert(stack.push(name).drop_last() =~= stack);
}

/// Reading an event never takes back a configuration already read.
pub proof fn lemma_boot_configurations_kept(m: BootModel, ev: XmlEventView)
    ensures
        boot_step(m, ev) matches BootStep::Next(m2) ==> {
            &&& m.configurations.len() <= m2.configurations.len()
            &&& m2.configurations.take(m.configurations.len() as int) == m.configurations
        },
{
    assert(m.configurations.take(m.configurations.len() as int) =~= m.configurations);
    if let XmlEventView::End(name) = ev {
        if let Some(c) = spec_build(m.builder) {
            assert(m.configurations.push(c).take(m.configurations.len() as int) =~= m.configurations);
        }
    }
}

/// Each configuration read was complete when its element closed: it has a
/// name, a hardware revision and a boot configuration path, and the element
/// that closes a configuration adds it, or aborts.
pub proof fn lemma_configuration_closes(m: BootModel)
    requires
        m.stack.len() > 0,
        m.stack.last() == CONFIGURATION_ELEMENT@,
    ensures
        match boot_step(m, XmlEventView::End(CONFIGURATION_ELEMENT@)) {
            BootStep::Next(m2) => spec_build(m.builder) matches Some(c)
                && m2.configurations == m.configurations.push(c) && m2.stack == m.stack.drop_last(),
            BootStep::Abort => spec_build(m.builder) is None,
            BootStep::Fail(_) => false,
        },
{
}

/// An element opened and closed again, outside any configuration, leaves
/// the stack of open elements and the configurations as they were.
pub proof fn lemma_boot_open_close(m: BootModel, name: Seq<char>, attrs: Seq<(Seq<char>, Seq<char>)>)
    requires
        name != CONFIGURATION_ELEMENT@,
    ensures
        boot_step(m, XmlEventView::Start(name, attrs)) is Next ==> ({
            let m2 = boot_step(m, XmlEventView::Start(name, attrs))->Next_0;
            let m3 = boot_step(m2, XmlEventView::End(name))->Next_0;
            &&& boot_step(m2, XmlEventView::End(name)) is Next
            &&& m3.stack == m.stack
            &&& m3.configurations == m.configurations
        }),
{
    lemma_pop_after_push(m.stack, name);
}

/// Reading a partition delivery never takes back a path already found, and
/// an element opened and closed again leaves the open elements as they were.
pub proof fn lemma_partition_files_kept(m: PartitionModel, name: Seq<char>, attrs: Seq<(Seq<char>, Seq<char>)>)
    ensures
        ({
            let m2 = partition_step(m, XmlEventView::Start(name, attrs))->Ok_0;
            let m3 = partition_step(m2, XmlEventView::End(name))->Ok_0;
            &&& partition_step(m, XmlEventView::Start(name, attrs)) is Ok
            &&& m2.files.take(m.files.len() as int) == m.files
            &&& partition_step(m2, XmlEventView::End(name)) is Ok
            &&& m3.stack == m.stack
            &&& m3.files == m2.files
        }),
{
    lemma_pop_after_push(m.stack, name);
    assert(m.files.take(m.files.len() as int) =~= m.files);
    if let Some(p) = attr_value(attrs, PATH_ATTRIBUTE@) {
        assert(m.files.push(p).take(m.files.len() as int) =~= m.files);
    }
}

/// Names what xml-rs reads from a document: the events that
/// `ParserConfig::default().create_reader(doc)` yields before its first
/// error, each by its local names and attribute values, and the text of
/// that error when there is one.
pub uninterp spec fn xml_events_of(doc: Seq<u8>) -> (Seq<XmlEventView>, Option<Seq<char>>);

/// Reads the events of an XML document with xml-rs (`ParserConfig::default`,
/// `create_reader`, its event iterator), each event converted to an
/// `XmlEvent` (local names and attribute values; any other event is
/// `Other`), stopping at the first error and keeping its text. What it
/// returns is the named `xml_events_of` of the document; nothing more is
/// claimed of the XML reader.
#[verifier::external_body]
fn read_xml_events(doc: &[u8]) -> (r: (Vec<XmlEvent>, Option<String>))
    ensures
        (events_view(r.0@), opt_view(r.1)) == xml_events_of(doc@),
{
    let mut events = Vec::new();
    for event in xml::ParserConfig::default().create_reader(doc) {
        events.push(match event {
            Ok(ReaderEvent::StartElement { name, attributes, .. }) => XmlEvent::StartElement {
                name: name.local_name,
                attributes: attributes.into_iter().map(|a| XmlAttribute { name: a.name.local_name, value: a.value }).collect(),
            },
            Ok(ReaderEvent::EndElement { name }) => XmlEvent::EndElement { name: name.local_name },
            Ok(_) => XmlEvent::Other,
            Err(e) => return (events, Some(e.to_string())),
        });
    }
    (events, None)
}

/// Why a delivery document was refused: the XML reader's error, or the
/// elements did not nest.
#[derive(Debug)]
pub enum DocumentError {
    Reader(String),
    Structure(XmlError),
}

/// Reads a boot delivery from the bytes of its XML document: the events
/// the reader gives are read in order, and a reader error takes effect
/// after them; `None` where reading the events would abort.
pub fn boot_delivery_from_document(doc: &[u8]) -> (r: Option<Result<BootDelivery, DocumentError>>)
    ensures
        ({
            let (events, err) = xml_events_of(doc@);
            match boot_run(boot_initial(), events) {
                BootStep::Abort => r is None,
                BootStep::Fail(e) => r matches Some(Err(DocumentError::Structure(x))) && x == e,
                BootStep::Next(m) => match err {
                    Some(t) => r matches Some(Err(DocumentError::Reader(x))) && x@ == t,
                    None => r matches Some(Ok(bd)) && bd@ == (m.space_id, m.configurations),
                },
            }
        }),
{
    let (events, err) = read_xml_events(doc);
    match boot_delivery_from_events(&events) {
        None => None,
        Some(Err(e)) => Some(Err(DocumentError::Structure(e))),
        Some(Ok(bd)) => match err {
            Some(t) => Some(Err(DocumentError::Reader(t))),
            None => Some(Ok(bd)),
        },
    }
}

/// Reads a partition delivery from the bytes of its XML document: the
/// image paths found in the events the reader gives, or the first error,
/// a reader error taking effect after those events.
pub fn partition_delivery_from_document(doc: &[u8]) -> (r: Result<Vec<String>, DocumentError>)
    ensures
        ({
            let (events, err) = xml_events_of(doc@);
            match partition_run(partition_initial(), events) {
                Err(e) => r matches Err(DocumentError::Structure(x)) && x == e,
                Ok(m) => match err {
                    Some(t) => r matches Err(DocumentError::Reader(x)) && x@ == t,
                    None => r matches Ok(files) && strings_view(files@) == m.files,
                },
            }
        }),
{
    let (events, err) = read_xml_events(doc);
    match partition_delivery_from_events(&events) {
        Err(e) => Err(DocumentError::Structure(e)),
        Ok(files) => match err {
            Some(t) => Err(DocumentError::Reader(t)),
            None => Ok(files),
        },
    }
}

/// A `CONFIGURATION` element opened outside any configuration starts from
/// an empty configuration: only its `NAME` is known, nothing of the
/// configuration read before it.
pub proof fn lemma_configuration_starts_empty(m: BootModel, attrs: Seq<(Seq<char>, Seq<char>)>)
    requires
        !m.stack.contains(CONFIGURATION_ELEMENT@),
    ensures
        boot_step(m, XmlEventView::Start(CONFIGURATION_ELEMENT@, attrs)) == BootStep::Next(
            BootModel {
                stack: m.stack.push(CONFIGURATION_ELEMENT@),
                space_id: m.space_id,
                configurations: m.configurations,
                builder: BuilderView {
                    name: attr_value(attrs, NAME_ATTRIBUTE@),
                    platform_id: Seq::empty(),
                    plf_root_hash: Seq::empty(),
                    hw_config_rev: None,
                    boot_config: None,
                    boot_images: Seq::empty(),
                },
            },
        ),
{
    assert(CONFIGURATION_ELEMENT@ != BOOT_DELIVERY_ELEMENT@) by {
        reveal_strlit("CONFIGURATION");
        reveal_strlit("BOOT_DELIVERY");
        assert(CONFIGURATION_ELEMENT@[0] != BOOT_DELIVERY_ELEMENT@[0]);
    }
}

/// Closing a configuration adds it as it was read and leaves nothing of it
/// behind: the next configuration starts with no name, revision, boot
/// configuration or image.
pub proof fn lemma_configuration_ends_empty(m: BootModel)
    ensures
        boot_step(m, XmlEventView::End(CONFIGURATION_ELEMENT@)) matches BootStep::Next(m2) ==> (
        m2.builder == BuilderView {
            name: None,
            platform_id: Seq::empty(),
            plf_root_hash: Seq::empty(),
            hw_config_rev: None,
            boot_config: None,
            boot_images: Seq::empty(),
        } && m2.configurations.len() == m.configurations.len() + 1 && m2.configurations.last()
            == (BootConfigurationView {
            name: m.builder.name->0,
            platform_id: m.builder.platform_id,
            plf_root_hash: m.builder.plf_root_hash,
            hw_config_rev: m.builder.hw_config_rev->0,
            boot_config: m.builder.boot_config->0,
            boot_images: m.builder.boot_images,
        })),
{
}

/// Inside `PARTITION_IMAGES`, every `FILE` element with a `PATH` adds that
/// path after those found before, however many there are.
pub proof fn lemma_partition_file_appended(
    m: PartitionModel,
    attrs: Seq<(Seq<char>, Seq<char>)>,
    path: Seq<char>,
)
    requires
        m.stack.contains(PARTITION_IMAGES_ELEMENT@),
        attr_value(attrs, PATH_ATTRIBUTE@) == Some(path),
    ensures
        partition_step(m, XmlEventView::Start(FILE_ELEMENT@, attrs)) == Ok::<
            PartitionModel,
            XmlError,
        >(PartitionModel { stack: m.stack.push(FILE_ELEMENT@), files: m.files.push(path) }),
{
}

/// Outside `PARTITION_IMAGES`, or without a `PATH`, an element adds no path.
pub proof fn lemma_partition_file_ignored(
    m: PartitionModel,
    name: Seq<char>,
    attrs: Seq<(Seq<char>, Seq<char>)>,
)
    requires
        !m.stack.contains(PARTITION_IMAGES_ELEMENT@) || attr_value(attrs, PATH_ATTRIBUTE@) is None
            || name != FILE_ELEMENT@,
    ensures
        partition_step(m, XmlEventView::Start(name, attrs)) == Ok::<PartitionModel, XmlError>(
            PartitionModel { stack: m.stack.push(name), files: m.files },
        ),
{
}

proof fn lemma_element_names_distinct()
    ensures
        CONFIGURATION_ELEMENT@ != ATTRIBUTES_ELEMENT@,
        CONFIGURATION_ELEMENT@ != HWCONFIG_ELEMENT@,
        CONFIGURATION_ELEMENT@ != FILE_ELEMENT@,
        CONFIGURATION_ELEMENT@ != BOOT_DELIVERY_ELEMENT@,
        CONFIGURATION_ELEMENT@ != BOOT_CONFIG_ELEMENT@,
        CONFIGURATION_ELEMENT@ != BOOT_IMAGES_ELEMENT@,
        ATTRIBUTES_ELEMENT@ != HWCONFIG_ELEMENT@,
        ATTRIBUTES_ELEMENT@ != FILE_ELEMENT@,
        HWCONFIG_ELEMENT@ != FILE_ELEMENT@,
        BOOT_CONFIG_ELEMENT@ != BOOT_IMAGES_ELEMENT@,
        ATTRIBUTES_ELEMENT@ != BOOT_DELIVERY_ELEMENT@,
        HWCONFIG_ELEMENT@ != BOOT_DELIVERY_ELEMENT@,
        FILE_ELEMENT@ != BOOT_DELIVERY_ELEMENT@,
{
    reveal_strlit("CONFIGURATION");
    reveal_strlit("ATTRIBUTES");
    reveal_strlit("HWCONFIG");
    reveal_strlit("FILE");
    reveal_strlit("BOOT_DELIVERY");
    reveal_strlit("BOOT_CONFIG");
    reveal_strlit("BOOT_IMAGES");
    assert(CONFIGURATION_ELEMENT@[0] != ATTRIBUTES_ELEMENT@[0]);
    assert(CONFIGURATION_ELEMENT@[0] != HWCONFIG_ELEMENT@[0]);
    assert(CONFIGURATION_ELEMENT@[0] != FILE_ELEMENT@[0]);
    assert(CONFIGURATION_ELEMENT@[0] != BOOT_DELIVERY_ELEMENT@[0]);
    assert(CONFIGURATION_ELEMENT@[0] != BOOT_CONFIG_ELEMENT@[0]);
    assert(CONFIGURATION_ELEMENT@[0] != BOOT_IMAGES_ELEMENT@[0]);
    assert(ATTRIBUTES_ELEMENT@[0] != HWCONFIG_ELEMENT@[0]);
    assert(ATTRIBUTES_ELEMENT@[0] != FILE_ELEMENT@[0]);
    assert(HWCONFIG_ELEMENT@[0] != FILE_ELEMENT@[0]);
    assert(BOOT_CONFIG_ELEMENT@[5] != BOOT_IMAGES_ELEMENT@[5]);
    assert(ATTRIBUTES_ELEMENT@[0] != BOOT_DELIVERY_ELEMENT@[0]);
    assert(HWCONFIG_ELEMENT@[0] != BOOT_DELIVERY_ELEMENT@[0]);
    assert(FILE_ELEMENT@[0] != BOOT_DELIVERY_ELEMENT@[0]);
}

/// Inside a configuration, the first `HWCONFIG` element gives the hardware
/// revision (its `REVISION`); a later one changes nothing.
pub proof fn lemma_hwconfig_first_revision(m: BootModel, attrs: Seq<(Seq<char>, Seq<char>)>)
    requires
        m.stack.contains(CONFIGURATION_ELEMENT@),
        m.stack.last() != BOOT_CONFIG_ELEMENT@,
    ensures
        boot_step(m, XmlEventView::Start(HWCONFIG_ELEMENT@, attrs)) == BootStep::Next(
            BootModel {
                stack: m.stack.push(HWCONFIG_ELEMENT@),
                space_id: m.space_id,
                configurations: m.configurations,
                builder: BuilderView {
                    hw_config_rev: if m.builder.hw_config_rev is Some {
                        m.builder.hw_config_rev
                    } else {
                        attr_value(attrs, REVISION_ATTRIBUTE@)
                    },
                    ..m.builder
                },
            },
        ),
{
    lemma_element_names_distinct();
}

/// Inside a configuration, the first element directly inside
/// `BOOT_CONFIG` gives the boot configuration path (its `PATH`); a later
/// one changes nothing.
pub proof fn lemma_boot_config_first_path(
    m: BootModel,
    name: Seq<char>,
    attrs: Seq<(Seq<char>, Seq<char>)>,
)
    requires
        m.stack.contains(CONFIGURATION_ELEMENT@),
        m.stack.len() > 0,
        m.stack.last() == BOOT_CONFIG_ELEMENT@,
        name != CONFIGURATION_ELEMENT@,
        name != ATTRIBUTES_ELEMENT@,
        name != HWCONFIG_ELEMENT@,
        name != BOOT_DELIVERY_ELEMENT@,
    ensures
        boot_step(m, XmlEventView::Start(name, attrs)) == BootStep::Next(
            BootModel {
                stack: m.stack.push(name),
                space_id: m.space_id,
                configurations: m.configurations,
                builder: BuilderView {
                    boot_config: if m.builder.boot_config is Some {
                        m.builder.boot_config
                    } else {
                        attr_value(attrs, PATH_ATTRIBUTE@)
                    },
                    ..m.builder
                },
            },
        ),
{
    lemma_element_names_distinct();
}

/// Inside a configuration, every `FILE` directly inside `BOOT_IMAGES` with
/// a `PATH` adds that path after the boot images found before.
pub proof fn lemma_boot_image_appended(
    m: BootModel,
    attrs: Seq<(Seq<char>, Seq<char>)>,
    path: Seq<char>,
)
    requires
        m.stack.contains(CONFIGURATION_ELEMENT@),
        m.stack.len() > 0,
        m.stack.last() == BOOT_IMAGES_ELEMENT@,
        attr_value(attrs, PATH_ATTRIBUTE@) == Some(path),
    ensures
        boot_step(m, XmlEventView::Start(FILE_ELEMENT@, attrs)) == BootStep::Next(
            BootModel {
                stack: m.stack.push(FILE_ELEMENT@),
                space_id: m.space_id,
                configurations: m.configurations,
                builder: BuilderView { boot_images: m.builder.boot_images.push(path), ..m.builder },
            },
        ),
{
    lemma_element_names_distinct();
}

/// Inside a configuration, an `ATTRIBUTES` element whose `VALUE` matches
/// the platform pattern takes the platform id from capture group 1 and the
/// root hash from capture group 2.
pub proof fn lemma_platform_from_match(
    m: BootModel,
    attrs: Seq<(Seq<char>, Seq<char>)>,
    value: Seq<char>,
    platform: Seq<char>,
    hash: Seq<char>,
)
    requires
        m.stack.contains(CONFIGURATION_ELEMENT@),
        m.stack.len() > 0,
        m.stack.last() != BOOT_CONFIG_ELEMENT@,
        attr_value(attrs, VALUE_ATTRIBUTE@) == Some(value),
        regex_captures(PLATFORM_PATTERN@, value) matches Some(g) && g.len() > 2 && g[1] == Some(
            platform,
        ) && g[2] == Some(hash),
    ensures
        boot_step(m, XmlEventView::Start(ATTRIBUTES_ELEMENT@, attrs)) == BootStep::Next(
            BootModel {
                stack: m.stack.push(ATTRIBUTES_ELEMENT@),
                space_id: m.space_id,
                configurations: m.configurations,
                builder: BuilderView { platform_id: platform, plf_root_hash: hash, ..m.builder },
            },
        ),
{
    lemma_element_names_distinct();
}

/// The opening `BOOT_DELIVERY` element gives the space id (its
/// `SPACE_ID`), read only while no element is open and no space id is
/// known.
pub proof fn lemma_space_id_read(m: BootModel, attrs: Seq<(Seq<char>, Seq<char>)>)
    requires
        m.stack.len() == 0,
        m.space_id is None,
    ensures
        boot_step(m, XmlEventView::Start(BOOT_DELIVERY_ELEMENT@, attrs)) == BootStep::Next(
            BootModel {
                stack: seq![BOOT_DELIVERY_ELEMENT@],
                space_id: attr_value(attrs, SPACE_ID_ATTRIBUTE@),
                configurations: m.configurations,
                builder: m.builder,
            },
        ),
{
    lemma_element_names_distinct();
    assert(m.stack.push(BOOT_DELIVERY_ELEMENT@) =~= seq![BOOT_DELIVERY_ELEMENT@]);
}

} // verus!
