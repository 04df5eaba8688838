//! The terminal client's screen state: which screen is up, what each
//! widget displays, and the windowing of the message list.  Drawing itself
//! is the terminal library's business and stays outside; these types hold
//! exactly what a draw needs.

use vstd::prelude::*;

verus! {

/// What the client does next after handling one key or server event.
pub enum AppAction {
    /// Stay on the current screen.
    Stay,
    /// Return to the room-selection screen.
    GoToWaitingRoom,
    /// Join the room with this identifier.
    GoToRoom(String),
    /// Quit the client.
    Quit,
}

/// Whether keys edit the input line or steer the app.
pub enum InputMode {
    Normal,
    Editing,
}

/// The fixed banner with the room-selection instructions.
#[derive(Default)]
pub struct RectangleInstructions;

/// A one-line bordered text box.
#[derive(Default)]
pub struct DisplayTextInput<'a> {
    /// The displayed title.
    pub title: &'a str,
}

impl<'a> DisplayTextInput<'a> {
    /// A text box showing this title.
    pub fn new(title: &'a str) -> (w: DisplayTextInput<'a>)
        ensures
            w.title@ == title@,
    {
        DisplayTextInput { title }
    }

    /// The displayed title.
    pub fn title(&self) -> (t: &'a str)
        ensures
            t@ == self.title@,
    {
        self.title
    }
}

/// A grid of labelled buttons filling its area row by row.
pub struct FillingButtons {
    /// The button labels, in order.
    pub instructions: Vec<String>,
    /// How many rows the grid is laid out for.
    pub num_rows: usize,
    /// How many columns the grid is laid out for.
    pub num_cols: usize,
}

impl FillingButtons {
    /// A grid of these labels, laid out over `num_rows` by `num_cols` cells.
    pub fn new(instructions: Vec<String>, num_rows: usize, num_cols: usize) -> (w: FillingButtons)
        ensures
            w.instructions@ == instructions@,
            w.num_rows == num_rows,
            w.num_cols == num_cols,
    {
        FillingButtons { instructions, num_rows, num_cols }
    }

    /// The grid cell of the label at `i`: its row and column.
    pub fn cell_of(&self, i: usize) -> (cell: (usize, usize))
        requires
            i < self.instructions@.len(),
            self.num_cols >= 1,
        ensures
            cell.0 == i as int / self.num_cols as int,
            cell.1 == i as int % self.num_cols as int,
    {
        (i / self.num_cols, i % self.num_cols)
    }

    /// The button labels, in order.
    pub fn labels(&self) -> (l: &Vec<String>)
        ensures
            l@ == self.instructions@,
    {
        &self.instructions
    }

    /// How many rows the grid was laid out for.
    pub fn rows(&self) -> (r: usize)
        ensures
            r == self.num_rows,
    {
        self.num_rows
    }

    /// How many columns the grid was laid out for.
    pub fn cols(&self) -> (c: usize)
        ensures
            c == self.num_cols,
    {
        self.num_cols
    }
}

/// The connected-room screen: mode line, message list, room title and the
/// input line being typed.
pub struct Messages<'input_mode, 'messages, 'room_id, 'input> {
    /// Whether keys edit the input line.
    pub input_mode: &'input_mode InputMode,
    /// The message lines to show.
    pub messages: &'messages Vec<String>,
    /// The room title.
    pub room_id: &'room_id str,
    /// The input line being typed.
    pub input: &'input str,
}

impl<'input_mode, 'messages, 'room_id, 'input> Messages<'input_mode, 'messages, 'room_id, 'input> {
    /// The screen state over these borrowed pieces.
    pub fn new(
        input_mode: &'input_mode InputMode,
        messages: &'messages Vec<String>,
        room_id: &'room_id str,
        input: &'input str,
    ) -> (w: Messages<'input_mode, 'messages, 'room_id, 'input>) where
        'messages: 'input_mode,
        'messages: 'room_id,
        'messages: 'input,

        ensures
            w.messages@ == messages@,
            w.room_id@ == room_id@,
            w.input@ == input@,
    {
        Messages { input_mode, messages, room_id, input }
    }

    /// Where the visible window of the message list starts, so that at most
    /// `available` lines show and they are the newest.
    pub fn window_start(&self, available: usize) -> (start: usize)
        ensures
            self.messages@.len() > available ==> start == self.messages@.len() - available,
            self.messages@.len() <= available ==> start == 0,
    {
        let len = self.messages.len();
        if len > available {
            len - available
        } else {
            0
        }
    }

    /// The message list.
    pub fn messages(&self) -> (m: &'messages Vec<String>)
        ensures
            m@ == self.messages@,
    {
        self.messages
    }

    /// The room title.
    pub fn room_id(&self) -> (r: &'room_id str)
        ensures
            r@ == self.room_id@,
    {
        self.room_id
    }

    /// The input line being typed.
    pub fn input(&self) -> (i: &'input str)
        ensures
            i@ == self.input@,
    {
        self.input
    }

    /// Whether keys currently edit the input line.
    pub fn is_editing(&self) -> (b: bool)
        ensures
            b == (self.input_mode is Editing),
    {
        match self.input_mode {
            InputMode::Editing => true,
            InputMode::Normal => false,
        }
    }
}

/// Which screen the client is on.
pub enum AppState {
    /// The room-selection screen.
    Waiting,
    /// Inside a room.
    RoomConnected,
    /// The client is shutting down.
    Closed,
}

/// Which screen to draw, as [`AppControl::screen`] decides it.
pub enum Screen {
    /// Draw the room-selection screen.
    Waiting,
    /// Draw the connected room named here.
    Room(String),
    /// Draw nothing: the client is done.
    Done,
}

/// The client's top-level state machine: which screen is up and which room,
/// if any, the client is in.
pub struct AppControl {
    /// Which screen is up.
    pub state: AppState,
    /// The connected room's name, while one is.
    pub room_name: Option<String>,
}

impl AppControl {
    /// A client on the room-selection screen, in no room.
    pub fn new() -> (app: AppControl)
        ensures
            app.state is Waiting,
            app.room_name is None,
            !app.is_done(),
    {
        AppControl { state: AppState::Waiting, room_name: None }
    }

    /// Whether the client has shut down.
    pub open spec fn is_done(&self) -> bool {
        self.state is Closed
    }

    /// One action moves the state machine one step: joining a room connects
    /// to it, returning to the waiting screen forgets the room, quitting is
    /// terminal, and staying changes nothing.
    pub fn apply_action(&mut self, action: AppAction)
        ensures
            match action {
                AppAction::Stay => *final(self) == *old(self),
                AppAction::GoToWaitingRoom => final(self).state is Waiting
                    && final(self).room_name is None,
                AppAction::GoToRoom(room) => final(self).state is RoomConnected
                    && (final(self).room_name matches Some(r) && r@ == room@),
                AppAction::Quit => final(self).state is Closed
                    && final(self).room_name == old(self).room_name,
            },
    {
        match action {
            AppAction::Stay => {},
            AppAction::GoToWaitingRoom => {
                self.state = AppState::Waiting;
                self.room_name = None;
            },
            AppAction::GoToRoom(room) => {
                self.state = AppState::RoomConnected;
                self.room_name = Some(room);
            },
            AppAction::Quit => {
                self.state = AppState::Closed;
            },
        }
    }

    /// Which screen to draw now: the waiting screen while no room is
    /// connected — also when the room name is missing — the named room's
    /// screen otherwise, and nothing once the client is done.
    pub fn screen(&self) -> (s: Screen)
        ensures
            self.state is Closed ==> s is Done,
            self.state is Waiting ==> s is Waiting,
            self.state is RoomConnected ==> match self.room_name {
                Some(room) => s matches Screen::Room(r) && r@ == room@,
                None => s is Waiting,
            },
    {
        match &self.state {
            AppState::Waiting => Screen::Waiting,
            AppState::Closed => Screen::Done,
            AppState::RoomConnected => match &self.room_name {
                Some(room) => Screen::Room(crate::msg::clone_string(room)),
                None => Screen::Waiting,
            },
        }
    }

    /// Shuts the client down; done is terminal for the draw loop.
    pub fn exit(&mut self)
        ensures
            final(self).state is Closed,
            final(self).is_done(),
    {
        self.state = AppState::Closed;
    }
}

} // verus!
