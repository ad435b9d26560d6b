//! Volume control over a serial link: a board samples potentiometers, smooths
//! the readings and sends a command for each channel whose value moved enough;
//! the host turns each command into `pactl` volume changes.

pub mod protocol;
pub mod text;
pub mod pactl;
pub mod tewma;
