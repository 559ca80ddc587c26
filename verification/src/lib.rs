//! A password vault: groups of named secrets, sealed under a password with
//! bcrypt and AES, and a generator of random secrets.

pub mod cipher;
pub mod paths;
pub mod prompt;
pub mod secret;
pub mod vault;
