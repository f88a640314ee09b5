use vstd::prelude::*;
use crate::text::{append, chars_of, owned, push_char, split_chars, split_on, string_of};

verus! {

/// A target platform: a processor architecture and an operating system.
#[derive(Debug, Clone, PartialEq, Eq)]
pub struct Platform {
    pub arch: String,
    pub os: String,
}

impl Platform {
    pub fn new(arch: String, os: String) -> (r: Platform)
        ensures
            r.arch == arch,
            r.os == os,
    {
        Platform { arch, os }
    }

    /// Reads `arch-os`: exactly one `-`.
    pub fn from_str(s: &str) -> (r: Option<Platform>)
        ensures
            split_on(s@, '-').len() == 2 <==> r is Some,
            r matches Some(p) ==> p.arch@ == split_on(s@, '-')[0] && p.os@ == split_on(
                s@,
                '-',
            )[1],
    {
        let cs = chars_of(s);
        let parts = split_chars(&cs, '-');
        if parts.len() != 2 {
            return None;
        }
        Some(Platform::new(string_of(&parts[0]), string_of(&parts[1])))
    }

    /// `arch-os`, the form that release entries name.
    pub fn to_string(&self) -> (r: String)
        ensures
            r@ == self.arch@ + seq!['-'] + self.os@,
    {
        let mut s = owned(self.arch.as_str());
        push_char(&mut s, '-');
        append(&mut s, self.os.as_str());
        s
    }
}

} // verus!
