use vstd::prelude::*;

use crate::text::{str_chars, str_eq};

verus! {

/// An element of an XML document: its name, its attributes in order, its child elements
/// and its text (none when it holds no text).
pub struct XmlElement {
    pub name: String,
    pub attributes: Vec<(String, String)>,
    pub children: Vec<XmlElement>,
    pub text: Option<String>,
}

/// Index of the first attribute named `key`, from index `from` on.
pub open spec fn find_attr(attrs: Seq<(String, String)>, key: Seq<char>, from: int) -> Option<int>
    decreases attrs.len() - from,
{
    if from < 0 || from >= attrs.len() {
        None
    } else if attrs[from].0@ == key {
        Some(from)
    } else {
        find_attr(attrs, key, from + 1)
    }
}

/// Value of the first attribute of `e` named `key`.
pub open spec fn attr_value(e: XmlElement, key: Seq<char>) -> Option<Seq<char>> {
    match find_attr(e.attributes@, key, 0) {
        Some(i) => Some(e.attributes@[i].1@),
        None => None,
    }
}

/// Index of the first child element named `name`, from index `from` on.
pub open spec fn find_child(children: Seq<XmlElement>, name: Seq<char>, from: int) -> Option<int>
    decreases children.len() - from,
{
    if from < 0 || from >= children.len() {
        None
    } else if children[from].name@ == name {
        Some(from)
    } else {
        find_child(children, name, from + 1)
    }
}

/// The text of an element, if it holds some.
pub open spec fn text_of(e: XmlElement) -> Option<Seq<char>> {
    match e.text {
        Some(t) => Some(t@),
        None => None,
    }
}

/// Why a list of drivers could not be read, or a group not found.
#[derive(Debug, Clone)]
pub enum DriversError {
    /// An element lacks an attribute: the element's name, the attribute's name.
    MissingAttribute(String, String),
    /// An element holds no text: its name.
    MissingText(String),
    /// A child element is missing: its name.
    MissingChild(String),
    /// No group has this name.
    GroupNotFound(String),
}

/// A `DriversError` by the text it holds.
pub enum DriversErrorModel {
    MissingAttribute(Seq<char>, Seq<char>),
    MissingText(Seq<char>),
    MissingChild(Seq<char>),
    GroupNotFound(Seq<char>),
}

impl View for DriversError {
    type V = DriversErrorModel;

    open spec fn view(&self) -> DriversErrorModel {
        match self {
            DriversError::MissingAttribute(e, a) => DriversErrorModel::MissingAttribute(e@, a@),
            DriversError::MissingText(e) => DriversErrorModel::MissingText(e@),
            DriversError::MissingChild(e) => DriversErrorModel::MissingChild(e@),
            DriversError::GroupNotFound(g) => DriversErrorModel::GroupNotFound(g@),
        }
    }
}

impl DriversError {
    /// A message for the user.
    pub fn to_string(&self) -> (r: String)
        ensures
            r@ == match self {
                DriversError::MissingAttribute(e, a) => "`"@ + e@ + "` without `"@ + a@ + "` attribute"@,
                DriversError::MissingText(e) => "`"@ + e@ + "` dosn't contain text"@,
                DriversError::MissingChild(e) => "Child `"@ + e@ + "` not found"@,
                DriversError::GroupNotFound(g) => "Group "@ + g@ + " not found"@,
            },
    {
        let mut text = String::new();
        match self {
            DriversError::MissingAttribute(e, a) => {
                text.append("`");
                text.append(e.as_str());
                text.append("` without `");
                text.append(a.as_str());
                text.append("` attribute");
            },
            DriversError::MissingText(e) => {
                text.append("`");
                text.append(e.as_str());
                text.append("` dosn't contain text");
            },
            DriversError::MissingChild(e) => {
                text.append("Child `");
                text.append(e.as_str());
                text.append("` not found");
            },
            DriversError::GroupNotFound(g) => {
                text.append("Group ");
                text.append(g.as_str());
                text.append(" not found");
            },
        }
        text
    }
}

/// Value of the first attribute of `e` named `key` (see `attr_value`).
pub fn get_attr<'a>(e: &'a XmlElement, key: &str) -> (r: Option<&'a String>)
    ensures
        match attr_value(*e, key@) {
            Some(v) => r matches Some(s) && s@ == v,
            None => r is None,
        },
{
    let n = e.attributes.len();
    let mut i: usize = 0;
    while i < n
        invariant
            n == e.attributes@.len(),
            i <= n,
            find_attr(e.attributes@, key@, 0) == find_attr(e.attributes@, key@, i as int),
        decreases n - i,
    {
        if str_eq(e.attributes[i].0.as_str(), key) {
            return Some(&e.attributes[i].1);
        }
        i = i + 1;
    }
    None
}

/// The first child element of `e` named `name` (see `find_child`).
pub fn get_child<'a>(e: &'a XmlElement, name: &str) -> (r: Option<&'a XmlElement>)
    ensures
        match find_child(e.children@, name@, 0) {
            Some(i) => r == Some(&e.children@[i]),
            None => r is None,
        },
{
    let n = e.children.len();
    let mut i: usize = 0;
    while i < n
        invariant
            n == e.children@.len(),
            i <= n,
            find_child(e.children@, name@, 0) == find_child(e.children@, name@, i as int),
        decreases n - i,
    {
        if str_eq(e.children[i].name.as_str(), name) {
            return Some(&e.children[i]);
        }
        i = i + 1;
    }
    None
}

/// A driver of a device, as a list of drivers describes it.
#[derive(Debug)]
pub struct DriverItem {
    pub device: String,
    pub manufacturer: String,
    pub version: String,
    pub driver_caption: String,
    pub driver: String,
}

/// A `DriverItem` by its texts.
pub struct DriverItemModel {
    pub device: Seq<char>,
    pub manufacturer: Seq<char>,
    pub version: Seq<char>,
    pub driver_caption: Seq<char>,
    pub driver: Seq<char>,
}

impl View for DriverItem {
    type V = DriverItemModel;

    open spec fn view(&self) -> DriverItemModel {
        DriverItemModel {
            device: self.device@,
            manufacturer: self.manufacturer@,
            version: self.version@,
            driver_caption: self.driver_caption@,
            driver: self.driver@,
        }
    }
}

/// The driver that a `device` element describes: its label, its manufacturer (or
/// `[Undefined]`), the name and text of its `driver` child and the text of its `version`
/// child; else the first of these that is missing.
pub open spec fn item_from_xml(e: XmlElement) -> Result<DriverItemModel, DriversErrorModel> {
    match attr_value(e, "label"@) {
        None => Err(DriversErrorModel::MissingAttribute(e.name@, "label"@)),
        Some(device) => {
            let manufacturer = match attr_value(e, "manufacturer"@) {
                Some(m) => m,
                None => "[Undefined]"@,
            };
            match find_child(e.children@, "driver"@, 0) {
                None => Err(DriversErrorModel::MissingChild("driver"@)),
                Some(di) => {
                    let d = e.children@[di];
                    match attr_value(d, "name"@) {
                        None => Err(DriversErrorModel::MissingAttribute(d.name@, "name"@)),
                        Some(caption) => match text_of(d) {
                            None => Err(DriversErrorModel::MissingText(d.name@)),
                            Some(driver) => match find_child(e.children@, "version"@, 0) {
                                None => Err(DriversErrorModel::MissingChild("version"@)),
                                Some(vi) => match text_of(e.children@[vi]) {
                                    None => Err(DriversErrorModel::MissingText(e.children@[vi].name@)),
                                    Some(version) => Ok(
                                        DriverItemModel { device, manufacturer, version, driver_caption: caption, driver },
                                    ),
                                },
                            },
                        },
                    }
                },
            }
        },
    }
}

fn clone_string(s: &String) -> (r: String)
    ensures
        r@ == s@,
{
    s.clone()
}

fn string_of(s: &str) -> (r: String)
    ensures
        r@ == s@,
{
    String::from_str(s)
}

impl DriverItem {
    /// Reads the driver that a `device` element describes (see `item_from_xml`).
    pub fn from_xml(xml: &XmlElement) -> (r: Result<DriverItem, DriversError>)
        ensures
            match item_from_xml(*xml) {
                Ok(m) => r matches Ok(item) && item@ == m,
                Err(em) => r matches Err(e) && e@ == em,
            },
    {
        let device = match get_attr(xml, "label") {
            Some(v) => clone_string(v),
            None => {
                return Err(DriversError::MissingAttribute(clone_string(&xml.name), string_of("label")));
            },
        };
        let manufacturer = match get_attr(xml, "manufacturer") {
            Some(v) => clone_string(v),
            None => string_of("[Undefined]"),
        };
        let driver_child = match get_child(xml, "driver") {
            Some(c) => c,
            None => {
                return Err(DriversError::MissingChild(string_of("driver")));
            },
        };
        let driver_caption = match get_attr(driver_child, "name") {
            Some(v) => clone_string(v),
            None => {
                return Err(DriversError::MissingAttribute(clone_string(&driver_child.name), string_of("name")));
            },
        };
        let driver = match &driver_child.text {
            Some(t) => clone_string(t),
            None => {
                return Err(DriversError::MissingText(clone_string(&driver_child.name)));
            },
        };
        let version_child = match get_child(xml, "version") {
            Some(c) => c,
            None => {
                return Err(DriversError::MissingChild(string_of("version")));
            },
        };
        let version = match &version_child.text {
            Some(t) => clone_string(t),
            None => {
                return Err(DriversError::MissingText(clone_string(&version_child.name)));
            },
        };
        Ok(DriverItem { device, manufacturer, version, driver_caption, driver })
    }
}

/// A named group of drivers.
#[derive(Debug)]
pub struct DriverGroup {
    pub name: String,
    pub items: Vec<DriverItem>,
}

/// A `DriverGroup` by its name and its drivers.
pub struct GroupModel {
    pub name: Seq<char>,
    pub items: Seq<DriverItemModel>,
}

impl View for DriverGroup {
    type V = GroupModel;

    open spec fn view(&self) -> GroupModel {
        GroupModel { name: self.name@, items: Seq::new(self.items@.len(), |i: int| self.items@[i]@) }
    }
}

/// Index of the first driver of device `device`, from index `from` on.
pub open spec fn find_item(items: Seq<DriverItemModel>, device: Seq<char>, from: int) -> Option<int>
    decreases items.len() - from,
{
    if from < 0 || from >= items.len() {
        None
    } else if items[from].device == device {
        Some(from)
    } else {
        find_item(items, device, from + 1)
    }
}

impl DriverGroup {
    /// The first driver of the device named `device_name`.
    pub fn get_item_by_device_name(&self, device_name: &str) -> (r: Option<&DriverItem>)
        ensures
            match find_item(self@.items, device_name@, 0) {
                Some(i) => r == Some(&self.items@[i]),
                None => r is None,
            },
    {
        let n = self.items.len();
        let mut i: usize = 0;
        while i < n
            invariant
                n == self.items@.len(),
                i <= n,
                find_item(self@.items, device_name@, 0) == find_item(self@.items, device_name@, i as int),
            decreases n - i,
        {
            if str_eq(self.items[i].device.as_str(), device_name) {
                return Some(&self.items[i]);
            }
            i = i + 1;
        }
        None
    }
}

/// Index of the first group named `name`, from index `from` on.
pub open spec fn find_group(groups: Seq<GroupModel>, name: Seq<char>, from: int) -> Option<int>
    decreases groups.len() - from,
{
    if from < 0 || from >= groups.len() {
        None
    } else if groups[from].name == name {
        Some(from)
    } else {
        find_group(groups, name, from + 1)
    }
}

/// The drivers of the `device` children among the first `k` children of a group element;
/// else the error of the first one that cannot be read.
pub open spec fn group_items(children: Seq<XmlElement>, k: int) -> Result<Seq<DriverItemModel>, DriversErrorModel>
    decreases k,
{
    if k <= 0 {
        Ok(Seq::empty())
    } else {
        match group_items(children, k - 1) {
            Err(e) => Err(e),
            Ok(items) => if children[k - 1].name@ == "device"@ {
                match item_from_xml(children[k - 1]) {
                    Ok(item) => Ok(items.push(item)),
                    Err(e) => Err(e),
                }
            } else {
                Ok(items)
            },
        }
    }
}

/// Groups with the drivers `items` of group `name` added: to the first group of that name,
/// or as a new group at the end.
pub open spec fn merged(groups: Seq<GroupModel>, name: Seq<char>, items: Seq<DriverItemModel>) -> Seq<GroupModel> {
    match find_group(groups, name, 0) {
        Some(i) => groups.update(i, GroupModel { name: groups[i].name, items: groups[i].items + items }),
        None => groups.push(GroupModel { name, items }),
    }
}

/// The groups after the `devGroup` children among the first `k` children of a list of
/// drivers are added, one after the other; the first that cannot be read stops there with
/// its error.
pub open spec fn appended(groups: Seq<GroupModel>, children: Seq<XmlElement>, k: int) -> (Seq<GroupModel>, Option<
    DriversErrorModel,
>)
    decreases k,
{
    if k <= 0 {
        (groups, None)
    } else {
        let (gs, err) = appended(groups, children, k - 1);
        if err is Some || children[k - 1].name@ != "devGroup"@ {
            (gs, err)
        } else {
            let c = children[k - 1];
            match attr_value(c, "group"@) {
                None => (gs, Some(DriversErrorModel::MissingAttribute(c.name@, "group"@))),
                Some(name) => match group_items(c.children@, c.children@.len() as int) {
                    Err(e) => (gs, Some(e)),
                    Ok(items) => (merged(gs, name, items), None),
                },
            }
        }
    }
}

/// Lists of drivers, by group.
#[derive(Debug)]
pub struct Drivers {
    pub groups: Vec<DriverGroup>,
}

impl View for Drivers {
    type V = Seq<GroupModel>;

    open spec fn view(&self) -> Seq<GroupModel> {
        Seq::new(self.groups@.len(), |i: int| self.groups@[i]@)
    }
}

/// Reads the drivers of a group element's `device` children (see `group_items`).
fn read_group_items(e: &XmlElement) -> (r: Result<Vec<DriverItem>, DriversError>)
    ensures
        match group_items(e.children@, e.children@.len() as int) {
            Ok(items) => r matches Ok(v) && Seq::new(v@.len(), |i: int| v@[i]@) == items,
            Err(em) => r matches Err(er) && er@ == em,
        },
{
    let n = e.children.len();
    let mut items: Vec<DriverItem> = Vec::new();
    let mut i: usize = 0;
    while i < n
        invariant
            n == e.children@.len(),
            i <= n,
            group_items(e.children@, i as int) matches Ok(m) && Seq::new(items@.len(), |j: int| items@[j]@) == m,
        decreases n - i,
    {
        let c = &e.children[i];
        if str_eq(c.name.as_str(), "device") {
            match DriverItem::from_xml(c) {
                Ok(item) => {
                    let ghost before = Seq::new(items@.len(), |j: int| items@[j]@);
                    items.push(item);
                    proof {
                        assert(Seq::new(items@.len(), |j: int| items@[j]@) =~= before.push(item@));
                    }
                },
                Err(er) => {
                    proof {
                        lemma_group_items_stops(e.children@, (i + 1) as int, n as int);
                    }
                    return Err(er);
                },
            }
        }
        i = i + 1;
    }
    Ok(items)
}

/// Once reading the children fails, it fails with the same error on more children.
proof fn lemma_group_items_stops(children: Seq<XmlElement>, k: int, m: int)
    requires
        0 <= k <= m <= children.len(),
        group_items(children, k) is Err,
    ensures
        group_items(children, m) == group_items(children, k),
    decreases m - k,
{
    if k < m {
        lemma_group_items_stops(children, k, m - 1);
    }
}

/// Once adding groups fails, it fails with the same error on more children.
proof fn lemma_appended_stops(groups: Seq<GroupModel>, children: Seq<XmlElement>, k: int, m: int)
    requires
        0 <= k <= m <= children.len(),
        appended(groups, children, k).1 is Some,
    ensures
        appended(groups, children, m) == appended(groups, children, k),
    decreases m - k,
{
    if k < m {
        lemma_appended_stops(groups, children, k, m - 1);
    }
}

impl Drivers {
    pub fn new_empty() -> (r: Self)
        ensures
            r@ == Seq::<GroupModel>::empty(),
    {
        Drivers { groups: Vec::new() }
    }

    /// Adds the drivers of each `devGroup` child of a list of drivers to the group of that
    /// name, or as a new group (see `appended`).
    pub fn append_file_data(&mut self, xml_elem: &XmlElement) -> (r: Result<(), DriversError>)
        ensures
            ({
                let (gs, err) = appended(old(self)@, xml_elem.children@, xml_elem.children@.len() as int);
                &&& final(self)@ == gs
                &&& match err {
                    Some(em) => r matches Err(e) && e@ == em,
                    None => r is Ok,
                }
            }),
    {
        let n = xml_elem.children.len();
        let mut i: usize = 0;
        while i < n
            invariant
                n == xml_elem.children@.len(),
                i <= n,
                appended(old(self)@, xml_elem.children@, i as int) == (self@, None::<DriversErrorModel>),
            decreases n - i,
        {
            let c = &xml_elem.children[i];
            if str_eq(c.name.as_str(), "devGroup") {
                let group = match get_attr(c, "group") {
                    Some(g) => clone_string(g),
                    None => {
                        proof {
                            lemma_appended_stops(old(self)@, xml_elem.children@, (i + 1) as int, n as int);
                        }
                        return Err(DriversError::MissingAttribute(clone_string(&c.name), string_of("group")));
                    },
                };
                let items = match read_group_items(c) {
                    Ok(items) => items,
                    Err(e) => {
                        proof {
                            lemma_appended_stops(old(self)@, xml_elem.children@, (i + 1) as int, n as int);
                        }
                        return Err(e);
                    },
                };
                self.merge_group(group, items);
            }
            i = i + 1;
        }
        Ok(())
    }

    /// Adds drivers to the first group named `name`, or as a new group (see `merged`).
    fn merge_group(&mut self, name: String, items: Vec<DriverItem>)
        ensures
            final(self)@ == merged(old(self)@, name@, Seq::new(items@.len(), |i: int| items@[i]@)),
    {
        let ghost added = Seq::new(items@.len(), |i: int| items@[i]@);
        let n = self.groups.len();
        let mut i: usize = 0;
        while i < n
            invariant
                n == self.groups@.len(),
                self@ == old(self)@,
                added == Seq::new(items@.len(), |j: int| items@[j]@),
                i <= n,
                find_group(self@, name@, 0) == find_group(self@, name@, i as int),
            decreases n - i,
        {
            if str_eq(self.groups[i].name.as_str(), name.as_str()) {
                let ghost before = self@;
                let mut group = self.groups.remove(i);
                let mut items = items;
                let ghost old_items = group@.items;
                let ghost old_vec = group.items@;
                let ghost new_vec = items@;
                group.items.append(&mut items);
                proof {
                    assert(group.items@ == old_vec + new_vec);
                    assert forall|j: int| 0 <= j < group@.items.len() implies #[trigger] group@.items[j] == (old_items
                        + added)[j] by {
                        if j < old_vec.len() {
                            assert(group.items@[j] == old_vec[j]);
                        } else {
                            assert(group.items@[j] == new_vec[j - old_vec.len()]);
                        }
                    }
                    assert(group@.items =~= old_items + added);
                }
                self.groups.insert(i, group);
                proof {
                    assert(self@ =~= before.update(
                        i as int,
                        GroupModel { name: before[i as int].name, items: before[i as int].items + added },
                    ));
                }
                return;
            }
            i = i + 1;
        }
        let ghost before = self@;
        let group = DriverGroup { name, items };
        proof {
            assert(group@.items =~= added);
        }
        self.groups.push(group);
        proof {
            assert(self@ =~= before.push(GroupModel { name: name@, items: added }));
        }
    }

    /// The first group named `name`.
    pub fn get_group_by_name(&self, name: &str) -> (r: Result<&DriverGroup, DriversError>)
        ensures
            match find_group(self@, name@, 0) {
                Some(i) => r == Ok::<&DriverGroup, DriversError>(&self.groups@[i]),
                None => r matches Err(e) && e@ == DriversErrorModel::GroupNotFound(name@),
            },
    {
        let n = self.groups.len();
        let mut i: usize = 0;
        while i < n
            invariant
                n == self.groups@.len(),
                i <= n,
                find_group(self@, name@, 0) == find_group(self@, name@, i as int),
            decreases n - i,
        {
            if str_eq(self.groups[i].name.as_str(), name) {
                return Ok(&self.groups[i]);
            }
            i = i + 1;
        }
        Err(DriversError::GroupNotFound(string_of(name)))
    }
}

/// The text in lower case, as `str::to_lowercase` gives it (by Unicode's rules).
pub uninterp spec fn lowercase(s: Seq<char>) -> Seq<char>;

/// Text in lower case (`str::to_lowercase`).
#[verifier::external_body]
fn to_lowercase(s: &str) -> (r: String)
    ensures
        r@ == lowercase(s@),
{
    s.to_lowercase()
}

/// `a` comes before `b` by the codes of their characters, a proper beginning first.
pub open spec fn chars_before(a: Seq<char>, b: Seq<char>) -> bool
    decreases a.len(),
{
    if b.len() == 0 {
        false
    } else if a.len() == 0 {
        true
    } else if a[0] != b[0] {
        (a[0] as u32) < (b[0] as u32)
    } else {
        chars_before(a.drop_first(), b.drop_first())
    }
}

/// Drivers are listed by manufacturer, then by device, letter case aside.
pub open spec fn item_before(a: DriverItemModel, b: DriverItemModel) -> bool {
    let ma = lowercase(a.manufacturer);
    let mb = lowercase(b.manufacturer);
    chars_before(ma, mb) || (ma == mb && chars_before(lowercase(a.device), lowercase(b.device)))
}

/// Index of the first of the first `k` drivers that none of them comes before.
pub open spec fn first_least(s: Seq<DriverItemModel>, k: int) -> int
    decreases k,
{
    if k <= 1 {
        0
    } else {
        let m = first_least(s, k - 1);
        if item_before(s[k - 1], s[m]) {
            k - 1
        } else {
            m
        }
    }
}

/// The first least driver is one of those looked at.
pub proof fn lemma_first_least_range(s: Seq<DriverItemModel>, k: int)
    requires
        1 <= k,
    ensures
        0 <= first_least(s, k) < k,
    decreases k,
{
    if k > 1 {
        lemma_first_least_range(s, k - 1);
    }
}

/// The drivers in their order (see `item_before`), equal ones as they were given.
pub open spec fn sorted_items(s: Seq<DriverItemModel>) -> Seq<DriverItemModel>
    decreases s.len(),
{
    if s.len() == 0 {
        s
    } else {
        let m = first_least(s, s.len() as int);
        proof {
            lemma_first_least_range(s, s.len() as int);
        }
        seq![s[m]] + sorted_items(s.remove(m))
    }
}

/// `a` comes before `b` by the codes of their characters (see `chars_before`).
fn chars_before_exec(a: &[char], b: &[char]) -> (r: bool)
    ensures
        r == chars_before(a@, b@),
{
    let mut i: usize = 0;
    proof {
        assert(a@.skip(0) =~= a@);
        assert(b@.skip(0) =~= b@);
    }
    while i < a.len() && i < b.len()
        invariant
            i <= a@.len(),
            i <= b@.len(),
            chars_before(a@, b@) == chars_before(a@.skip(i as int), b@.skip(i as int)),
        decreases a@.len() - i,
    {
        if a[i] != b[i] {
            return (a[i] as u32) < (b[i] as u32);
        }
        proof {
            assert(a@.skip(i as int).drop_first() =~= a@.skip(i + 1));
            assert(b@.skip(i as int).drop_first() =~= b@.skip(i + 1));
        }
        i = i + 1;
    }
    i < b.len()
}

fn chars_equal(a: &[char], b: &[char]) -> (r: bool)
    ensures
        r == (a@ == b@),
{
    if a.len() != b.len() {
        return false;
    }
    let mut i: usize = 0;
    while i < a.len()
        invariant
            a@.len() == b@.len(),
            i <= a@.len(),
            a@.take(i as int) == b@.take(i as int),
        decreases a@.len() - i,
    {
        if a[i] != b[i] {
            assert(a@[i as int] != b@[i as int]);
            return false;
        }
        proof {
            assert(a@.take(i + 1) =~= a@.take(i as int).push(a@[i as int]));
            assert(b@.take(i + 1) =~= b@.take(i as int).push(b@[i as int]));
        }
        i = i + 1;
    }
    proof {
        assert(a@.take(a@.len() as int) =~= a@);
        assert(b@.take(b@.len() as int) =~= b@);
    }
    true
}

/// Sort key of a driver: its manufacturer and its device in lower case.
fn item_key(item: &DriverItem) -> (r: (Vec<char>, Vec<char>))
    ensures
        r.0@ == lowercase(item.manufacturer@),
        r.1@ == lowercase(item.device@),
{
    let m = to_lowercase(item.manufacturer.as_str());
    let d = to_lowercase(item.device.as_str());
    (str_chars(m.as_str()), str_chars(d.as_str()))
}

/// Sort keys of drivers (see `item_key`).
fn keys_of(items: &Vec<DriverItem>) -> (r: Vec<(Vec<char>, Vec<char>)>)
    ensures
        r@.len() == items@.len(),
        forall|t: int|
            0 <= t < items@.len() ==> #[trigger] r@[t].0@ == lowercase(items@[t].manufacturer@) && r@[t].1@
                == lowercase(items@[t].device@),
{
    let mut keys: Vec<(Vec<char>, Vec<char>)> = Vec::new();
    let mut j: usize = 0;
    while j < items.len()
        invariant
            j <= items@.len(),
            keys@.len() == j,
            forall|t: int|
                0 <= t < j ==> #[trigger] keys@[t].0@ == lowercase(items@[t].manufacturer@) && keys@[t].1@
                    == lowercase(items@[t].device@),
        decreases items@.len() - j,
    {
        let k = item_key(&items[j]);
        let ghost before = keys@;
        keys.push(k);
        proof {
            assert forall|t: int| 0 <= t < j + 1 implies #[trigger] keys@[t].0@ == lowercase(items@[t].manufacturer@)
                && keys@[t].1@ == lowercase(items@[t].device@) by {
                if t < j {
                    assert(keys@[t] == before[t]);
                }
            }
        }
        j = j + 1;
    }
    keys
}

/// Views of drivers.
pub open spec fn item_views(v: Seq<DriverItem>) -> Seq<DriverItemModel> {
    Seq::new(v.len(), |i: int| v[i]@)
}

/// The drivers in their order (see `sorted_items`).
fn sort_items(items: Vec<DriverItem>) -> (r: Vec<DriverItem>)
    ensures
        item_views(r@) == sorted_items(item_views(items@)),
{
    let ghost all = item_views(items@);
    let mut rest = items;
    let mut keys = keys_of(&rest);
    let mut out: Vec<DriverItem> = Vec::new();
    proof {
        assert(item_views(out@) + sorted_items(item_views(rest@)) =~= sorted_items(all));
    }
    while rest.len() > 0
        invariant
            keys@.len() == rest@.len(),
            forall|t: int|
                #![trigger keys@[t]] 0 <= t < rest@.len() ==> keys@[t].0@ == lowercase(rest@[t].manufacturer@) && keys@[t].1@
                    == lowercase(rest@[t].device@),
            item_views(out@) + sorted_items(item_views(rest@)) == sorted_items(all),
        decreases rest@.len(),
    {
        let ghost v = item_views(rest@);
        let n = rest.len();
        let mut m: usize = 0;
        let mut k: usize = 1;
        while k < n
            invariant
                n == rest@.len(),
                n == keys@.len(),
                v == item_views(rest@),
                forall|t: int|
                    #![trigger keys@[t]] 0 <= t < n ==> keys@[t].0@ == lowercase(rest@[t].manufacturer@) && keys@[t].1@
                        == lowercase(rest@[t].device@),
                1 <= k <= n,
                m == first_least(v, k as int),
                m < k,
            decreases n - k,
        {
            let km = &keys[m];
            let kk = &keys[k];
            let before = chars_before_exec(kk.0.as_slice(), km.0.as_slice()) || (chars_equal(
                kk.0.as_slice(),
                km.0.as_slice(),
            ) && chars_before_exec(kk.1.as_slice(), km.1.as_slice()));
            proof {
                assert(v[k as int] == rest@[k as int]@);
                assert(v[m as int] == rest@[m as int]@);
            }
            if before {
                m = k;
            }
            k = k + 1;
        }
        let ghost tail = sorted_items(v.remove(m as int));
        proof {
            lemma_first_least_range(v, n as int);
            assert(sorted_items(v) == seq![v[m as int]] + tail);
        }
        let item = rest.remove(m);
        let _ = keys.remove(m);
        proof {
            assert(item_views(rest@) =~= v.remove(m as int));
        }
        let ghost before_out = item_views(out@);
        out.push(item);
        proof {
            assert(item_views(out@) =~= before_out.push(item@));
            assert(item_views(out@) + sorted_items(item_views(rest@)) =~= before_out + (seq![v[m as int]] + tail));
        }
    }
    proof {
        assert(sorted_items(item_views(rest@)) =~= Seq::<DriverItemModel>::empty());
        assert(item_views(out@) + Seq::<DriverItemModel>::empty() =~= item_views(out@));
    }
    out
}

/// Groups with the drivers of each in their order.
pub open spec fn groups_sorted(groups: Seq<GroupModel>) -> Seq<GroupModel> {
    Seq::new(groups.len(), |i: int| GroupModel { name: groups[i].name, items: sorted_items(groups[i].items) })
}

impl Drivers {
    /// Puts the drivers of each group in their order (see `sorted_items`).
    pub fn sort_group_items(&mut self)
        ensures
            final(self)@ == groups_sorted(old(self)@),
    {
        let n = self.groups.len();
        let mut i: usize = 0;
        while i < n
            invariant
                n == self.groups@.len(),
                n == old(self)@.len(),
                i <= n,
                forall|t: int| 0 <= t < i ==> #[trigger] self@[t] == groups_sorted(old(self)@)[t],
                forall|t: int| i <= t < n ==> #[trigger] self@[t] == old(self)@[t],
            decreases n - i,
        {
            let ghost before = self@;
            let group = self.groups.remove(i);
            let DriverGroup { name, items } = group;
            let ghost old_items = item_views(items@);
            let sorted = sort_items(items);
            let new_group = DriverGroup { name, items: sorted };
            proof {
                assert(new_group@.items =~= item_views(sorted@));
                assert(before[i as int].items =~= old_items);
            }
            self.groups.insert(i, new_group);
            proof {
                assert(self@ =~= before.update(i as int, groups_sorted(old(self)@)[i as int]));
            }
            i = i + 1;
        }
        proof {
            assert(self@ =~= groups_sorted(old(self)@));
        }
    }
}

proof fn lemma_chars_before_transitive(a: Seq<char>, b: Seq<char>, c: Seq<char>)
    requires
        chars_before(a, b),
        chars_before(b, c),
    ensures
        chars_before(a, c),
    decreases a.len(),
{
    if a.len() > 0 && b.len() > 0 && c.len() > 0 && a[0] == b[0] && b[0] == c[0] {
        lemma_chars_before_transitive(a.drop_first(), b.drop_first(), c.drop_first());
    }
}

proof fn lemma_item_before_transitive(a: DriverItemModel, b: DriverItemModel, c: DriverItemModel)
    requires
        item_before(a, b),
        item_before(b, c),
    ensures
        item_before(a, c),
{
    let (ma, mb, mc) = (lowercase(a.manufacturer), lowercase(b.manufacturer), lowercase(c.manufacturer));
    let (da, db, dc) = (lowercase(a.device), lowercase(b.device), lowercase(c.device));
    if chars_before(ma, mb) && chars_before(mb, mc) {
        lemma_chars_before_transitive(ma, mb, mc);
    }
    if ma == mb && mb == mc && chars_before(da, db) && chars_before(db, dc) {
        lemma_chars_before_transitive(da, db, dc);
    }
}

/// No driver among the first `k` comes before the first least of them.
proof fn lemma_first_least_is_least(s: Seq<DriverItemModel>, k: int)
    requires
        1 <= k <= s.len(),
    ensures
        forall|i: int| 0 <= i < k ==> !item_before(#[trigger] s[i], s[first_least(s, k)]),
    decreases k,
{
    lemma_first_least_range(s, k);
    if k > 1 {
        lemma_first_least_is_least(s, k - 1);
        let m = first_least(s, k - 1);
        if item_before(s[k - 1], s[m]) {
            assert forall|i: int| 0 <= i < k implies !item_before(#[trigger] s[i], s[k - 1]) by {
                if i < k - 1 && item_before(s[i], s[k - 1]) {
                    lemma_item_before_transitive(s[i], s[k - 1], s[m]);
                }
                if i == k - 1 {
                    lemma_item_before_irreflexive(s[i]);
                }
            }
        }
    } else {
        lemma_item_before_irreflexive(s[0]);
    }
}

proof fn lemma_chars_before_irreflexive(a: Seq<char>)
    ensures
        !chars_before(a, a),
    decreases a.len(),
{
    if a.len() > 0 {
        lemma_chars_before_irreflexive(a.drop_first());
    }
}

proof fn lemma_item_before_irreflexive(a: DriverItemModel)
    ensures
        !item_before(a, a),
{
    lemma_chars_before_irreflexive(lowercase(a.manufacturer));
    lemma_chars_before_irreflexive(lowercase(a.device));
}

/// The drivers in their order are the drivers given, each as many times.
pub proof fn lemma_sorted_items_same(s: Seq<DriverItemModel>)
    ensures
        sorted_items(s).to_multiset() == s.to_multiset(),
        sorted_items(s).len() == s.len(),
    decreases s.len(),
{
    broadcast use vstd::seq_lib::group_to_multiset_ensures;
    if s.len() > 0 {
        let m = first_least(s, s.len() as int);
        lemma_first_least_range(s, s.len() as int);
        let rest = s.remove(m);
        lemma_sorted_items_same(rest);
        vstd::seq_lib::lemma_multiset_commutative(seq![s[m]], sorted_items(rest));
        assert(s =~= s.take(m) + seq![s[m]] + s.skip(m + 1));
        assert(rest =~= s.take(m) + s.skip(m + 1));
        vstd::seq_lib::lemma_multiset_commutative(s.take(m) + seq![s[m]], s.skip(m + 1));
        vstd::seq_lib::lemma_multiset_commutative(s.take(m), seq![s[m]]);
        vstd::seq_lib::lemma_multiset_commutative(s.take(m), s.skip(m + 1));
    }
}

/// Drivers put in their order are ordered: no driver comes before one listed ahead of it.
pub proof fn lemma_sorted_items_ordered(s: Seq<DriverItemModel>)
    ensures
        forall|i: int, j: int|
            0 <= i < j < sorted_items(s).len() ==> !item_before(#[trigger] sorted_items(s)[j], #[trigger] sorted_items(s)[i]),
    decreases s.len(),
{
    if s.len() > 0 {
        let m = first_least(s, s.len() as int);
        lemma_first_least_range(s, s.len() as int);
        lemma_first_least_is_least(s, s.len() as int);
        let rest = s.remove(m);
        lemma_sorted_items_ordered(rest);
        lemma_sorted_items_same(rest);
        let t = sorted_items(s);
        let tr = sorted_items(rest);
        assert(t == seq![s[m]] + tr);
        assert forall|i: int, j: int| 0 <= i < j < t.len() implies !item_before(#[trigger] t[j], #[trigger] t[i]) by {
            if i == 0 {
                let x = tr[j - 1];
                assert(tr.to_multiset().count(x) > 0) by {
                    broadcast use vstd::seq_lib::group_to_multiset_ensures;
                    assert(tr.contains(x));
                }
                assert(rest.to_multiset().count(x) > 0);
                assert(rest.contains(x)) by {
                    broadcast use vstd::seq_lib::group_to_multiset_ensures;
                }
                let k = choose|k: int| 0 <= k < rest.len() && rest[k] == x;
                if k < m {
                    assert(rest[k] == s[k]);
                } else {
                    assert(rest[k] == s[k + 1]);
                }
            } else {
                assert(t[i] == tr[i - 1] && t[j] == tr[j - 1]);
            }
        }
    }
}

} // verus!
