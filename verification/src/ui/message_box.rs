//! The application's modal message box: its caption, its message and whether it shows.
use vstd::prelude::*;

verus! {

broadcast use vstd::string::group_string_axioms;

/// A message box: a caption, a message, and whether it is open.
pub struct MessageBox {
    caption: String,
    message: String,
    is_open: bool,
}

/// Mathematical model of [`MessageBox`].
pub struct MessageBoxView {
    pub caption: Seq<char>,
    pub message: Seq<char>,
    pub is_open: bool,
}

impl View for MessageBox {
    type V = MessageBoxView;

    closed spec fn view(&self) -> MessageBoxView {
        MessageBoxView { caption: self.caption@, message: self.message@, is_open: self.is_open }
    }
}

impl Default for MessageBox {
    /// A closed box captioned "Message" with no message.
    fn default() -> (b: Self)
        ensures
            b@ == (MessageBoxView { caption: "Message"@, message: Seq::empty(), is_open: false }),
    {
        MessageBox { caption: "Message".to_string(), message: String::new(), is_open: false }
    }
}

impl MessageBox {
    /// Opens the box with an informational message, captioned "OK".
    pub fn show(&mut self, message: String)
        ensures
            final(self)@ == (MessageBoxView { caption: "OK"@, message: message@, is_open: true }),
    {
        self.caption = "OK".to_string();
        self.message = message;
        self.is_open = true;
    }

    /// Opens the box with an error message, captioned "Error".
    pub fn error(&mut self, message: String)
        ensures
            final(self)@ == (MessageBoxView { caption: "Error"@, message: message@, is_open: true }),
    {
        self.caption = "Error".to_string();
        self.message = message;
        self.is_open = true;
    }

    /// Closes the box, keeping its text.
    pub fn dismiss(&mut self)
        ensures
            final(self)@ == (MessageBoxView { is_open: false, ..old(self)@ }),
    {
        self.is_open = false;
    }

    /// Whether the box shows.
    pub fn is_open(&self) -> (b: bool)
        ensures
            b == self@.is_open,
    {
        self.is_open
    }

    /// The caption.
    pub fn caption(&self) -> (c: &str)
        ensures
            c@ == self@.caption,
    {
        self.caption.as_str()
    }

    /// The message.
    pub fn message(&self) -> (m: &str)
        ensures
            m@ == self@.message,
    {
        self.message.as_str()
    }
}

} // verus!
