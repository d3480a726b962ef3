//! Which graphic of an image the editor works on.

use vstd::prelude::*;
use crate::formats::cls::Class;
use crate::text::{chars_eq, chars_of};

verus! {

#[derive(Clone, Copy, PartialEq, Eq, Structural)]
pub enum Kind {
    Image,
    Scheme,
    Icon,
}

impl Kind {
    /// `scheme` and `icon` name those; anything else is the image.
    pub fn parse(s: &str) -> (k: Kind)
        ensures
            k == if s@ == "scheme"@ {
                Kind::Scheme
            } else if s@ == "icon"@ {
                Kind::Icon
            } else {
                Kind::Image
            },
    {
        let c = chars_of(s);
        if chars_eq(&c, &chars_of("scheme")) {
            Kind::Scheme
        } else if chars_eq(&c, &chars_of("icon")) {
            Kind::Icon
        } else {
            Kind::Image
        }
    }
}

/// The block of the image that holds the graphic of a kind.
pub fn blob(c: &Class, kind: Kind) -> (b: &Option<Vec<u8>>)
    ensures
        *b == match kind {
            Kind::Image => c.image,
            Kind::Scheme => c.scheme,
            Kind::Icon => c.icon,
        },
{
    match kind {
        Kind::Image => &c.image,
        Kind::Scheme => &c.scheme,
        Kind::Icon => &c.icon,
    }
}

/// The block of the image that holds the graphic of a kind, to change it.
pub fn blob_mut(c: &mut Class, kind: Kind) -> (b: &mut Option<Vec<u8>>)
    ensures
        *b == match kind {
            Kind::Image => old(c).image,
            Kind::Scheme => old(c).scheme,
            Kind::Icon => old(c).icon,
        },
        *final(c) == match kind {
            Kind::Image => Class { image: *final(b), ..*old(c) },
            Kind::Scheme => Class { scheme: *final(b), ..*old(c) },
            Kind::Icon => Class { icon: *final(b), ..*old(c) },
        },
{
    match kind {
        Kind::Image => &mut c.image,
        Kind::Scheme => &mut c.scheme,
        Kind::Icon => &mut c.icon,
    }
}

} // verus!
