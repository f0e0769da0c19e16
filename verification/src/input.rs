//! The logical state of the buttons: which are held down, and which were
//! pressed or released since the last update.

use vstd::prelude::*;
use crate::geom::Vec2;

verus! {

/// The buttons that the game knows.
#[derive(Clone, Copy, Debug, PartialEq, Eq, Hash, Structural)]
pub enum Button {
    Left,
    Right,
    Quit,
}

/// The axes that the game knows.
#[derive(Clone, Copy, Debug, PartialEq, Eq, Hash, Structural)]
pub enum Axis {
    Vert,
    Horz,
}

/// What a physical input does to the logical state.
#[derive(Clone, Copy, Debug, PartialEq, Eq, Structural)]
pub enum InputEffect {
    Button(Button),
}

/// The state of one button: whether it is held down, and whether it was
/// pressed or released since the last update.
#[derive(Clone, Copy, Debug, PartialEq, Eq, Structural)]
pub struct ButtonState {
    pub down: bool,
    pub pressed: bool,
    pub released: bool,
}

impl ButtonState {
    /// The state of a button that nothing has happened to: up, neither
    /// pressed nor released.
    pub open spec fn idle() -> ButtonState {
        ButtonState { down: false, pressed: false, released: false }
    }

    /// The state after the button went down, where `started` holds, or up.
    /// The button is down exactly when it went down, and the edge that it
    /// just made is recorded beside the edges that are already there.
    pub open spec fn after(self, started: bool) -> ButtonState {
        ButtonState {
            down: started,
            pressed: started || self.pressed,
            released: !started || self.released,
        }
    }

    /// The state after an update: the level stays and the edges are cleared.
    pub open spec fn settled(self) -> ButtonState {
        ButtonState { down: self.down, pressed: false, released: false }
    }
}

/// The logical state of the input.
pub struct InputState {
    // The buttons that something has happened to, each once.
    buttons: Vec<(Button, ButtonState)>,
    mouse_position: Vec2,
}

impl InputState {
    /// The state is well formed when no button is listed twice.
    pub closed spec fn wf(&self) -> bool {
        forall|i: int, j: int|
            0 <= i < j < self.buttons@.len() ==> (#[trigger] self.buttons@[i]).0 != (
            #[trigger] self.buttons@[j]).0
    }

    /// The state of a button; `idle` for a button that nothing has happened
    /// to.
    pub closed spec fn state_of(&self, button: Button) -> ButtonState {
        if exists|i: int| 0 <= i < self.buttons@.len() && (#[trigger] self.buttons@[i]).0 == button {
            let i = choose|i: int|
                0 <= i < self.buttons@.len() && (#[trigger] self.buttons@[i]).0 == button;
            self.buttons@[i].1
        } else {
            ButtonState::idle()
        }
    }

    /// The position of the mouse.
    pub closed spec fn mouse(&self) -> Vec2 {
        self.mouse_position
    }

    /// The state in which nothing has happened yet, with the mouse at the
    /// origin.
    pub fn new() -> (r: InputState)
        ensures
            r.wf(),
            r.mouse() == (Vec2 { x: 0, y: 0 }),
            forall|b: Button| #[trigger] r.state_of(b) == ButtonState::idle(),
    {
        InputState { buttons: Vec::new(), mouse_position: Vec2 { x: 0, y: 0 } }
    }

    /// The place of a button in the list, if something has happened to it.
    fn find(&self, button: Button) -> (r: Option<usize>)
        requires
            self.wf(),
        ensures
            match r {
                Some(i) => i < self.buttons@.len() && self.buttons@[i as int].0 == button
                    && self.state_of(button) == self.buttons@[i as int].1,
                None => self.state_of(button) == ButtonState::idle() && forall|k: int|
                    0 <= k < self.buttons@.len() ==> (#[trigger] self.buttons@[k]).0 != button,
            },
    {
        let mut i: usize = 0;
        while i < self.buttons.len()
            invariant
                self.wf(),
                i <= self.buttons@.len(),
                forall|k: int| 0 <= k < i ==> (#[trigger] self.buttons@[k]).0 != button,
            decreases self.buttons.len() - i,
        {
            if self.buttons[i].0 == button {
                proof {
                    let j = choose|j: int|
                        0 <= j < self.buttons@.len() && (#[trigger] self.buttons@[j]).0 == button;
                    if j < i {
                        assert(self.buttons@[j].0 != self.buttons@[i as int].0);
                    } else if i < j {
                        assert(self.buttons@[i as int].0 != self.buttons@[j].0);
                    }
                }
                return Some(i);
            }
            i += 1;
        }
        None
    }

    /// Ends a frame: every button keeps its level and loses its edges.
    /// Call this after the systems that read the input have run.
    pub fn update(&mut self)
        requires
            old(self).wf(),
        ensures
            final(self).wf(),
            final(self).mouse() == old(self).mouse(),
            forall|b: Button| #[trigger] final(self).state_of(b) == old(self).state_of(b).settled(),
    {
        let n = self.buttons.len();
        let mut i: usize = 0;
        while i < n
            invariant
                n == self.buttons@.len(),
                n == old(self).buttons@.len(),
                i <= n,
                self.mouse_position == old(self).mouse_position,
                forall|k: int|
                    0 <= k < n ==> (#[trigger] self.buttons@[k]).0 == old(self).buttons@[k].0,
                forall|k: int|
                    0 <= k < i ==> (#[trigger] self.buttons@[k]).1 == old(
                        self,
                    ).buttons@[k].1.settled(),
                forall|k: int| i <= k < n ==> (#[trigger] self.buttons@[k]).1 == old(self).buttons@[k].1,
            decreases n - i,
        {
            let (button, state) = self.buttons[i];
            self.buttons.set(
                i,
                (button, ButtonState { down: state.down, pressed: false, released: false }),
            );
            i += 1;
        }
        proof {
            assert(self.wf()) by {
                assert forall|i: int, j: int| 0 <= i < j < self.buttons@.len() implies (
                #[trigger] self.buttons@[i]).0 != (#[trigger] self.buttons@[j]).0 by {
                    assert(old(self).buttons@[i].0 != old(self).buttons@[j].0);
                }
            }
            assert forall|b: Button| #[trigger] self.state_of(b) == old(self).state_of(
                b,
            ).settled() by {
                if exists|i: int|
                    0 <= i < old(self).buttons@.len() && (#[trigger] old(self).buttons@[i]).0 == b {
                    let i = choose|i: int|
                        0 <= i < old(self).buttons@.len() && (#[trigger] old(self).buttons@[i]).0
                            == b;
                    assert(self.buttons@[i].0 == b);
                    let j = choose|j: int|
                        0 <= j < self.buttons@.len() && (#[trigger] self.buttons@[j]).0 == b;
                    if i < j {
                        assert(self.buttons@[i].0 != self.buttons@[j].0);
                    } else if j < i {
                        assert(self.buttons@[j].0 != self.buttons@[i].0);
                    }
                } else {
                    if exists|j: int|
                        0 <= j < self.buttons@.len() && (#[trigger] self.buttons@[j]).0 == b {
                        let j = choose|j: int|
                            0 <= j < self.buttons@.len() && (#[trigger] self.buttons@[j]).0 == b;
                        assert(old(self).buttons@[j].0 == b);
                    }
                }
            }
        }
    }

    /// Takes an effect and applies it: the button goes down where `started`
    /// holds, else up, and keeps the edge until the next update.
    pub fn update_effect(&mut self, effect: InputEffect, started: bool)
        requires
            old(self).wf(),
        ensures
            final(self).wf(),
            final(self).mouse() == old(self).mouse(),
            forall|b: Button| #[trigger]
                final(self).state_of(b) == if effect == InputEffect::Button(b) {
                    old(self).state_of(b).after(started)
                } else {
                    old(self).state_of(b)
                },
    {
        match effect {
            InputEffect::Button(button) => {
                let found = self.find(button);
                let status = match found {
                    Some(i) => self.buttons[i].1,
                    None => ButtonState { down: false, pressed: false, released: false },
                };
                let next = ButtonState {
                    down: started,
                    pressed: started || status.pressed,
                    released: !started || status.released,
                };
                match found {
                    Some(i) => {
                        self.buttons.set(i, (button, next));
                    },
                    None => {
                        self.buttons.push((button, next));
                    },
                }
                proof {
                    let n = old(self).buttons@.len() as int;
                    let at = match found {
                        Some(i) => i as int,
                        None => n,
                    };
                    assert(self.buttons@[at] == (button, next));
                    assert forall|k: int| 0 <= k < n && k != at implies #[trigger] self.buttons@[k]
                        == old(self).buttons@[k] by {}
                    assert(self.wf()) by {
                        assert forall|i: int, j: int| 0 <= i < j < self.buttons@.len() implies (
                        #[trigger] self.buttons@[i]).0 != (#[trigger] self.buttons@[j]).0 by {
                            if i < n && j < n {
                                assert(old(self).buttons@[i].0 != old(self).buttons@[j].0);
                            }
                        }
                    }
                    assert forall|b: Button| #[trigger]
                        self.state_of(b) == if effect == InputEffect::Button(b) {
                            old(self).state_of(b).after(started)
                        } else {
                            old(self).state_of(b)
                        } by {
                        if b == button {
                            let j = choose|j: int|
                                0 <= j < self.buttons@.len() && (#[trigger] self.buttons@[j]).0 == b;
                            if at < j {
                                assert(self.buttons@[at].0 != self.buttons@[j].0);
                            } else if j < at {
                                assert(self.buttons@[j].0 != self.buttons@[at].0);
                            }
                        } else if exists|i: int|
                            0 <= i < n && (#[trigger] old(self).buttons@[i]).0 == b {
                            let i = choose|i: int|
                                0 <= i < n && (#[trigger] old(self).buttons@[i]).0 == b;
                            assert(self.buttons@[i].0 == b);
                            let j = choose|j: int|
                                0 <= j < self.buttons@.len() && (#[trigger] self.buttons@[j]).0 == b;
                            if i < j {
                                assert(self.buttons@[i].0 != self.buttons@[j].0);
                            } else if j < i {
                                assert(self.buttons@[j].0 != self.buttons@[i].0);
                            }
                        } else {
                            if exists|j: int|
                                0 <= j < self.buttons@.len() && (#[trigger] self.buttons@[j]).0 == b {
                                let j = choose|j: int|
                                    0 <= j < self.buttons@.len() && (#[trigger] self.buttons@[j]).0
                                        == b;
                                assert(j < n);
                                assert(old(self).buttons@[j].0 == b);
                            }
                        }
                    }
                }
            },
        }
    }

    /// The state of a button.
    fn get_button(&self, button: Button) -> (r: ButtonState)
        requires
            self.wf(),
        ensures
            r == self.state_of(button),
    {
        match self.find(button) {
            Some(i) => self.buttons[i].1,
            None => ButtonState { down: false, pressed: false, released: false },
        }
    }

    /// Whether the button is held down.
    pub fn get_button_down(&self, axis: Button) -> (r: bool)
        requires
            self.wf(),
        ensures
            r == self.state_of(axis).down,
    {
        self.get_button(axis).down
    }

    /// Whether the button is up.
    pub fn get_button_up(&self, axis: Button) -> (r: bool)
        requires
            self.wf(),
        ensures
            r == !self.state_of(axis).down,
    {
        !self.get_button(axis).down
    }

    /// Whether the button went down since the last update. Down and up are
    /// levels; pressed and released are edges.
    pub fn get_button_pressed(&self, axis: Button) -> (r: bool)
        requires
            self.wf(),
        ensures
            r == self.state_of(axis).pressed,
    {
        self.get_button(axis).pressed
    }

    /// Whether the button went up since the last update.
    pub fn get_button_released(&self, axis: Button) -> (r: bool)
        requires
            self.wf(),
        ensures
            r == self.state_of(axis).released,
    {
        self.get_button(axis).released
    }

    /// Sets the position of the mouse.
    pub fn update_mouse_position(&mut self, x: i64, y: i64)
        requires
            old(self).wf(),
        ensures
            final(self).wf(),
            final(self).mouse() == (Vec2 { x, y }),
            forall|b: Button| #[trigger] final(self).state_of(b) == old(self).state_of(b),
    {
        self.mouse_position = Vec2 { x, y };
    }

    /// The position of the mouse.
    pub fn mouse_position(&self) -> (r: Vec2)
        ensures
            r == self.mouse(),
    {
        self.mouse_position
    }
}

} // verus!
