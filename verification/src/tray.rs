//! The decision core of the notification-area menu: given the current
//! state and a menu selection, which command the shell must perform and
//! what the next state is. The surrounding loop — building the native
//! menu, pumping the platform message cycle, sending on channels — is
//! platform plumbing and lives outside the library; it feeds selections
//! in and carries the returned commands out.

use vstd::prelude::*;

verus! {

/// Which menu entry a native menu event refers to.
#[derive(Clone, Copy, Debug, PartialEq, Eq, Structural)]
pub enum TrayMenuSelection {
    ReloadConfig,
    ShowConfigFolder,
    ToggleAnimations,
    Exit,
    Other,
}

/// What the shell must do in response to a selection.
#[derive(Clone, Copy, Debug, PartialEq, Eq, Structural)]
pub enum TrayCommand {
    SendConfigReload,
    OpenConfigFolder,
    SetWindowAnimations(bool),
    SendExit,
    Nothing,
}

/// The tray's own state: the global animations flag it mirrors.
#[derive(Clone, Copy, Debug, PartialEq, Eq, Structural)]
pub struct TrayState {
    pub animations_enabled: bool,
}

impl TrayState {
    /// The state at startup, seeded from the platform's current flag.
    pub fn new(animations_enabled: bool) -> (r: TrayState)
        ensures
            r.animations_enabled == animations_enabled,
    {
        TrayState { animations_enabled }
    }

    /// Decides the command for one menu selection and advances the state:
    /// reload and exit are forwarded, the config folder is opened, and
    /// the animations entry flips the mirrored flag and pushes the new
    /// value to the platform. Anything else does nothing.
    pub fn handle(&mut self, selection: TrayMenuSelection) -> (cmd: TrayCommand)
        ensures
            cmd == (match selection {
                TrayMenuSelection::ReloadConfig => TrayCommand::SendConfigReload,
                TrayMenuSelection::ShowConfigFolder => TrayCommand::OpenConfigFolder,
                TrayMenuSelection::ToggleAnimations => TrayCommand::SetWindowAnimations(
                    !old(self).animations_enabled,
                ),
                TrayMenuSelection::Exit => TrayCommand::SendExit,
                TrayMenuSelection::Other => TrayCommand::Nothing,
            }),
            final(self).animations_enabled == (if selection is ToggleAnimations {
                !old(self).animations_enabled
            } else {
                old(self).animations_enabled
            }),
    {
        match selection {
            TrayMenuSelection::ReloadConfig => TrayCommand::SendConfigReload,
            TrayMenuSelection::ShowConfigFolder => TrayCommand::OpenConfigFolder,
            TrayMenuSelection::ToggleAnimations => {
                self.animations_enabled = !self.animations_enabled;
                TrayCommand::SetWindowAnimations(self.animations_enabled)
            },
            TrayMenuSelection::Exit => TrayCommand::SendExit,
            TrayMenuSelection::Other => TrayCommand::Nothing,
        }
    }
}

} // verus!
