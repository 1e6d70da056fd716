use vstd::prelude::*;

verus! {

/// The tag that a tag code stands for, in the form the store holds it.
pub open spec fn tag_of(key: u32) -> Option<Seq<char>> {
    if key == 1 {
        Some("Tag_百名山"@)
    } else {
        None
    }
}

/// Turns a tag code into the tag it stands for.
pub trait TagBaseMapper: Sized {
    fn new(key: u32) -> Self;

    fn to_tag(&self) -> Result<String, ()>;
}

/// A tag code.
pub struct TagMapper {
    pub key: u32,
}

impl TagBaseMapper for TagMapper {
    fn new(key: u32) -> (r: Self)
        ensures
            r.key == key,
    {
        TagMapper { key }
    }

    /// The tag, in the form the store holds it; an unknown code is refused.
    fn to_tag(&self) -> (r: Result<String, ()>)
        ensures
            match tag_of(self.key) {
                Some(t) => r matches Ok(s) && s@ == t,
                None => r is Err,
            },
    {
        match self.key {
            1 => Ok(String::from_str("Tag_百名山")),
            _ => Err(()),
        }
    }
}

} // verus!
