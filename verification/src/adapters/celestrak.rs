//! Names and addresses of the CelesTrak general-perturbations element sets.

use vstd::prelude::*;
use vstd::string::*;

use crate::text::{
    ascii_digit, ascii_letter, chars_of, decimal, decimal_of, is_ascii_digit, is_ascii_letter,
    opt_copy, opt_view, quote, quoted,
};

verus! {

pub const DEFAULT_GROUP: &'static str = "active";

/// The name may stand in an address: letters, digits and hyphens, at least one.
pub open spec fn is_group(group: Seq<char>) -> bool {
    group.len() > 0 && forall|i: int|
        0 <= i < group.len() ==> is_ascii_letter(#[trigger] group[i]) || is_ascii_digit(group[i])
            || group[i] == '-'
}

/// No group can have this name.
#[derive(Debug)]
pub struct InvalidGroup {
    pub group: String,
}

impl InvalidGroup {
    pub fn message(&self) -> (r: String)
        ensures
            r@ == "invalid CelesTrak group name "@ + quoted(self.group@),
    {
        let mut m = "invalid CelesTrak group name ".to_owned();
        m.append(quote(self.group.as_str()).as_str());
        m
    }
}

pub fn check_group(group: &str) -> (r: Result<(), InvalidGroup>)
    ensures
        match r {
            Ok(()) => is_group(group@),
            Err(e) => !is_group(group@) && e.group@ == group@,
        },
{
    let cs = chars_of(group);
    let mut i: usize = 0;
    while i < cs.len()
        invariant
            i <= cs@.len(),
            cs@ == group@,
            forall|j: int|
                0 <= j < i ==> is_ascii_letter(#[trigger] cs@[j]) || is_ascii_digit(cs@[j])
                    || cs@[j] == '-',
        decreases cs.len() - i,
    {
        if !(ascii_letter(cs[i]) || ascii_digit(cs[i]) || cs[i] == '-') {
            assert(!is_group(group@)) by {
                assert(group@[i as int] == cs@[i as int]);
            }
            return Err(InvalidGroup { group: group.to_owned() });
        }
        i += 1;
    }
    if cs.len() == 0 {
        Err(InvalidGroup { group: group.to_owned() })
    } else {
        Ok(())
    }
}

/// Where the element sets of a group are found.
pub fn group_url(group: &str) -> (r: String)
    ensures
        r@ == "https://celestrak.org/NORAD/elements/gp.php?GROUP="@ + group@ + "&FORMAT=json"@,
{
    let mut url = "https://celestrak.org/NORAD/elements/gp.php?GROUP=".to_owned();
    url.append(group);
    url.append("&FORMAT=json");
    url
}

/// What an object is called: by its name, or by its catalogue number.
pub fn object_name(name: &Option<String>, norad: u64) -> (r: String)
    ensures
        r@ == match opt_view(*name) {
            Some(n) => n,
            None => "NORAD "@ + decimal(norad as nat),
        },
{
    match opt_copy(name) {
        Some(n) => n,
        None => {
            let mut m = "NORAD ".to_owned();
            m.append(decimal_of(norad).as_str());
            m
        },
    }
}

} // verus!
