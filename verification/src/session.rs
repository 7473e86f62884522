//! The session directory: a once-initialized, process-scoped temporary
//! directory whose name is a deterministic hash of the process id and the
//! working directory. The surrounding process creates and removes the real
//! directory; the library derives its name and guards the set-once register.

use vstd::prelude::*;
use vstd::string::StrSliceExecFns;
use vstd::string::StringExecFns;
use vstd::utf8::encode_utf8;

verus! {

/// The offset basis of the 64-bit FNV-1a hash.
pub const FNV_OFFSET: u64 = 0xcbf29ce484222325;

/// The prime of the 64-bit FNV-1a hash.
pub const FNV_PRIME: u64 = 0x100000001b3;

/// One step of FNV-1a: fold a byte into the running hash.
pub open spec fn fnv1a_step(h: u64, b: u8) -> u64 {
    (h ^ (b as u64)).wrapping_mul(FNV_PRIME)
}

/// The 64-bit FNV-1a hash of `bytes` folded onto the running hash `h`.
pub open spec fn fnv1a(bytes: Seq<u8>, h: u64) -> u64
    decreases bytes.len(),
{
    if bytes.len() == 0 {
        h
    } else {
        fnv1a(bytes.drop_first(), fnv1a_step(h, bytes[0]))
    }
}

/// The character of a single decimal digit.
pub open spec fn digit_char(d: int) -> char {
    ((48 + d) as u8) as char
}

/// The decimal rendering of `n`, most significant digit first.
pub open spec fn decimal_digits(n: int) -> Seq<char>
    decreases n,
{
    if n < 10 {
        seq![digit_char(n)]
    } else {
        decimal_digits(n / 10).push(digit_char(n % 10))
    }
}

/// The byte string hashed for a session: the process id in decimal, a
/// space, and the working directory.
pub open spec fn session_key(pid: u64, cwd: Seq<char>) -> Seq<u8> {
    encode_utf8(decimal_digits(pid as int) + " "@ + cwd)
}

/// The directory name of a session: a fixed tag, then the hash of the
/// session key in decimal.
pub open spec fn session_dir_spec(pid: u64, cwd: Seq<char>) -> Seq<char> {
    "lspcat-"@ + decimal_digits(fnv1a(session_key(pid, cwd), FNV_OFFSET) as int)
}

/// The full path of the session directory: the temporary-files root, a
/// separator, and the session directory's name.
pub open spec fn session_path_spec(temp_root: Seq<char>, pid: u64, cwd: Seq<char>) -> Seq<char> {
    temp_root + "/"@ + session_dir_spec(pid, cwd)
}

/// The single decimal digit `d` as a string slice.
fn digit_str(d: u64) -> (s: &'static str)
    requires
        d < 10,
    ensures
        s@ == seq![digit_char(d as int)],
{
    proof {
        reveal_strlit("0");
        reveal_strlit("1");
        reveal_strlit("2");
        reveal_strlit("3");
        reveal_strlit("4");
        reveal_strlit("5");
        reveal_strlit("6");
        reveal_strlit("7");
        reveal_strlit("8");
        reveal_strlit("9");
    }
    let s = if d == 0 {
        "0"
    } else if d == 1 {
        "1"
    } else if d == 2 {
        "2"
    } else if d == 3 {
        "3"
    } else if d == 4 {
        "4"
    } else if d == 5 {
        "5"
    } else if d == 6 {
        "6"
    } else if d == 7 {
        "7"
    } else if d == 8 {
        "8"
    } else {
        "9"
    };
    proof {
        assert(s@ =~= seq![digit_char(d as int)]);
    }
    s
}

/// Renders `n` in decimal, most significant digit first.
pub fn u64_to_decimal(n: u64) -> (s: String)
    ensures
        s@ == decimal_digits(n as int),
    decreases n,
{
    if n < 10 {
        digit_str(n).to_owned()
    } else {
        let mut s = u64_to_decimal(n / 10);
        let ghost pre = s@;
        s.append(digit_str(n % 10));
        proof {
            assert(s@ =~= pre.push(digit_char((n % 10) as int)));
        }
        s
    }
}

/// Folds a byte slice into a running FNV-1a hash.
fn fnv1a_bytes(bytes: &[u8], h: u64) -> (r: u64)
    ensures
        r == fnv1a(bytes@, h),
{
    let mut acc = h;
    let mut i: usize = 0;
    proof {
        assert(bytes@.skip(0) =~= bytes@);
    }
    while i < bytes.len()
        invariant
            i <= bytes@.len(),
            fnv1a(bytes@, h) == fnv1a(bytes@.skip(i as int), acc),
        decreases bytes@.len() - i,
    {
        proof {
            assert(bytes@.skip(i as int)[0] == bytes@[i as int]);
            assert(bytes@.skip(i as int).drop_first() =~= bytes@.skip(i as int + 1));
        }
        acc = (acc ^ (bytes[i] as u64)).wrapping_mul(FNV_PRIME);
        i = i + 1;
    }
    proof {
        assert(bytes@.skip(i as int).len() == 0);
    }
    acc
}

/// The name of the session directory for a process id and working
/// directory: the fixed tag, then a deterministic hash of the two, in
/// decimal. A pure function of its inputs, so every component of a session
/// derives the same name.
pub fn session_dir_name(pid: u64, cwd: &str) -> (name: String)
    ensures
        name@ == session_dir_spec(pid, cwd@),
{
    let mut key = u64_to_decimal(pid);
    let ghost digits = key@;
    key.append(" ");
    key.append(cwd);
    proof {
        assert(key@ =~= decimal_digits(pid as int) + " "@ + cwd@);
    }
    let h = fnv1a_bytes(key.as_str().as_bytes(), FNV_OFFSET);
    let mut name = "lspcat-".to_owned();
    name.append(u64_to_decimal(h).as_str());
    proof {
        assert(name@ =~= session_dir_spec(pid, cwd@));
    }
    name
}

/// The set-once register holding the session directory's path. Reads before
/// it is set degrade gracefully (document shadowing silently does nothing);
/// a second attempt to set it is refused and reported, never absorbed.
pub struct SessionDir {
    pub path: Option<String>,
}

impl SessionDir {
    /// A register with no path set.
    pub fn new() -> (d: SessionDir)
        ensures
            d.path is None,
    {
        SessionDir { path: None }
    }

    /// Stores the path if the register is still unset and reports whether it
    /// did; a register that was already set is left as it was.
    pub fn set(&mut self, path: String) -> (stored: bool)
        ensures
            old(self).path is None ==> stored && final(self).path == Some(path),
            old(self).path is Some ==> !stored && final(self).path == old(self).path,
    {
        match &self.path {
            None => {
                self.path = Some(path);
                true
            },
            Some(_) => false,
        }
    }

    /// The stored path, if one was set.
    pub fn get(&self) -> (p: Option<&String>)
        ensures
            match p {
                Some(q) => self.path == Some(*q),
                None => self.path is None,
            },
    {
        self.path.as_ref()
    }
}

} // verus!
