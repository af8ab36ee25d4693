use vstd::prelude::*;

use crate::text::{str_chars, string_from_chars};
use vstd::slice::slice_subrange;

verus! {

/// Pixel binning of a camera.
#[derive(Debug, Copy, Clone, PartialEq, Eq, Structural)]
pub enum Binning {
    Orig,
    Bin2,
    Bin4,
}

impl Default for Binning {
    fn default() -> (r: Self)
        ensures
            r == Binning::Orig,
    {
        Binning::Orig
    }
}

impl Binning {
    /// Pixels merged along each axis.
    pub open spec fn ratio(self) -> int {
        match self {
            Binning::Orig => 1,
            Binning::Bin2 => 2,
            Binning::Bin4 => 4,
        }
    }

    /// Shown name: `1x1`, `2x2` or `4x4`.
    pub open spec fn name(self) -> Seq<char> {
        match self {
            Binning::Orig => "1x1"@,
            Binning::Bin2 => "2x2"@,
            Binning::Bin4 => "4x4"@,
        }
    }

    pub fn to_str(self) -> (r: &'static str)
        ensures
            r@ == self.name(),
    {
        match self {
            Binning::Orig => "1x1",
            Binning::Bin2 => "2x2",
            Binning::Bin4 => "4x4",
        }
    }

    pub fn get_ratio(&self) -> (r: usize)
        ensures
            r == self.ratio(),
    {
        match self {
            Binning::Orig => 1,
            Binning::Bin2 => 2,
            Binning::Bin4 => 4,
        }
    }
}

/// Part of the sensor kept around its center.
#[derive(Debug, Copy, Clone, PartialEq, Eq, Structural)]
pub enum Crop {
    Full,
    P75,
    P50,
    P33,
    P25,
}

impl Default for Crop {
    fn default() -> (r: Self)
        ensures
            r == Crop::Full,
    {
        Crop::Full
    }
}

impl Crop {
    /// A size after cropping, rounded down.
    pub open spec fn cropped(self, value: int) -> int {
        match self {
            Crop::Full => value,
            Crop::P75 => 3 * value / 4,
            Crop::P50 => value / 2,
            Crop::P33 => value / 3,
            Crop::P25 => value / 4,
        }
    }

    /// Shown name of the crop.
    pub open spec fn name(self) -> Seq<char> {
        match self {
            Crop::Full => "None"@,
            Crop::P75 => "75%"@,
            Crop::P50 => "50%"@,
            Crop::P33 => "33.3%"@,
            Crop::P25 => "25%"@,
        }
    }

    pub fn translate(&self, value: usize) -> (r: usize)
        requires
            *self == Crop::P75 ==> 3 * value <= usize::MAX,
        ensures
            r == self.cropped(value as int),
    {
        match self {
            Crop::Full => value,
            Crop::P75 => 3 * value / 4,
            Crop::P50 => value / 2,
            Crop::P33 => value / 3,
            Crop::P25 => value / 4,
        }
    }

    pub fn to_str(self) -> (r: &'static str)
        ensures
            r@ == self.name(),
    {
        match self {
            Crop::Full => "None",
            Crop::P75 => "75%",
            Crop::P50 => "50%",
            Crop::P33 => "33.3%",
            Crop::P25 => "25%",
        }
    }
}

/// `s` ends with `suffix`.
pub open spec fn ends_with(s: Seq<char>, suffix: Seq<char>) -> bool {
    s.len() >= suffix.len() && s.skip(s.len() - suffix.len()) == suffix
}

/// Name of the camera property of the second sensor, as it ends a device text.
pub open spec fn ccd2_postfix() -> Seq<char> {
    "_CCD2"@
}

/// A device and the property of the sensor to use (`CCD1`, `CCD2`, ...; empty for any).
#[derive(Debug, Clone, PartialEq, Eq)]
pub struct DeviceAndProp {
    pub name: String,
    pub prop: String,
}

impl Default for DeviceAndProp {
    fn default() -> (r: Self)
        ensures
            r.name@ == Seq::<char>::empty(),
            r.prop@ == Seq::<char>::empty(),
    {
        DeviceAndProp { name: String::new(), prop: String::new() }
    }
}

/// The text of a device and its sensor: the name, then `_` and the property unless the
/// name or property is empty or the property is `CCD1`.
pub open spec fn device_text(name: Seq<char>, prop: Seq<char>) -> Seq<char> {
    if name.len() > 0 && prop.len() > 0 && prop != "CCD1"@ {
        name + "_"@ + prop
    } else {
        name
    }
}

fn chars_equal(a: &[char], b: &str) -> (r: bool)
    ensures
        r == (a@ == b@),
{
    let n = b.unicode_len();
    if a.len() != n {
        return false;
    }
    let mut i: usize = 0;
    while i < n
        invariant
            n == b@.len(),
            a@.len() == n,
            i <= n,
            forall|j: int| 0 <= j < i ==> a@[j] == b@[j],
        decreases n - i,
    {
        if a[i] != b.get_char(i) {
            return false;
        }
        i = i + 1;
    }
    proof {
        assert(a@ =~= b@);
    }
    true
}

impl DeviceAndProp {
    /// Splits a device text: a trailing `_CCD2` selects the second sensor, anything
    /// else the first one.
    pub fn new(text: &str) -> (r: Self)
        ensures
            ends_with(text@, ccd2_postfix()) ==> r.name@ == text@.take(text@.len() - 5)
                && r.prop@ == "CCD2"@,
            !ends_with(text@, ccd2_postfix()) ==> r.name@ == text@ && r.prop@ == "CCD1"@,
    {
        let chars = str_chars(text);
        let n = chars.len();
        let postfix = "_CCD2";
        proof {
            reveal_strlit("_CCD2");
        }
        let has_postfix = n >= 5 && chars_equal(slice_tail(&chars, n - 5), postfix);
        proof {
            if n >= 5 {
                assert(chars@.skip(n - 5) =~= chars@.subrange(n - 5, n as int));
            }
        }
        if has_postfix {
            let name = string_from_chars(slice_head(&chars, n - 5));
            proof {
                assert(chars@.subrange(0, n - 5) =~= text@.take(n - 5));
            }
            DeviceAndProp { name, prop: String::from_str("CCD2") }
        } else {
            DeviceAndProp { name: string_from_chars(chars.as_slice()), prop: String::from_str("CCD1") }
        }
    }

    /// The device text of this device and sensor (see `device_text`).
    pub fn to_string(&self) -> (r: String)
        ensures
            r@ == device_text(self.name@, self.prop@),
    {
        let mut result = self.name.clone();
        let prop = str_chars(self.prop.as_str());
        proof {
            reveal_strlit("CCD1");
        }
        if result.as_str().unicode_len() > 0 && prop.len() > 0 && !chars_equal(prop.as_slice(), "CCD1") {
            result.append("_");
            result.append(self.prop.as_str());
            proof {
                reveal_strlit("_");
            }
        }
        result
    }

    /// The part of a file name that names this device and sensor (see `device_text`).
    pub fn to_file_name_part(&self) -> (r: String)
        ensures
            r@ == device_text(self.name@, self.prop@),
    {
        self.to_string()
    }
}

fn slice_tail(s: &Vec<char>, from: usize) -> (r: &[char])
    requires
        from <= s@.len(),
    ensures
        r@ == s@.subrange(from as int, s@.len() as int),
{
    slice_subrange(s.as_slice(), from, s.len())
}

fn slice_head(s: &Vec<char>, to: usize) -> (r: &[char])
    requires
        to <= s@.len(),
    ensures
        r@ == s@.subrange(0, to as int),
{
    slice_subrange(s.as_slice(), 0, to)
}

/// Splitting a device text and writing it again gives the text back, unless the text
/// is the bare postfix of the second sensor.
pub proof fn lemma_device_text_round_trip(text: Seq<char>)
    requires
        text != ccd2_postfix(),
    ensures
        ends_with(text, ccd2_postfix()) ==> device_text(text.take(text.len() - 5), "CCD2"@) == text,
        !ends_with(text, ccd2_postfix()) ==> device_text(text, "CCD1"@) == text,
{
    reveal_strlit("_CCD2");
    reveal_strlit("CCD2");
    reveal_strlit("CCD1");
    reveal_strlit("_");
    if ends_with(text, ccd2_postfix()) {
        let name = text.take(text.len() - 5);
        if name.len() == 0 {
            assert(text =~= ccd2_postfix());
        }
        assert("CCD2"@ != "CCD1"@) by {
            assert("CCD2"@[3] != "CCD1"@[3]);
        }
        assert(name + "_"@ + "CCD2"@ =~= text) by {
            assert(text.skip(text.len() - 5) == "_CCD2"@);
            assert forall|i: int| 0 <= i < text.len() implies (name + "_"@ + "CCD2"@)[i] == text[i] by {
                if i >= text.len() - 5 {
                    assert(text[i] == text.skip(text.len() - 5)[i - (text.len() - 5)]);
                }
            }
        }
    }
}

/// Cropping never makes a size larger.
pub proof fn lemma_crop_shrinks(crop: Crop, value: int)
    requires
        value >= 0,
    ensures
        0 <= crop.cropped(value) <= value,
{
}

} // verus!
