//! The tray icon: its tooltip, its menu, and what the program does with the
//! item chosen there.

use vstd::prelude::*;
use crate::text::{push_str, utf16, utf16_units};

verus! {

broadcast use vstd::std_specs::vec::group_vec_axioms;

/// The items of the tray menu.
#[derive(Clone, Copy, PartialEq, Eq, Structural, Debug)]
pub enum TrayEvent {
    ToggleHotkeys,
    OpenScreenshots,
    OpenSettings,
    Reload,
    OpenGitHub,
    Quit,
}

/// The longest tooltip the tray keeps, in UTF-16 units, before its
/// terminating zero.
pub const TOOLTIP_CAPACITY: usize = 127;

/// What the tray knows: whether the hotkeys are switched on, whether the
/// system accepted them, their specifications, and the menu item chosen
/// last and not yet handled.
pub struct TrayModel {
    pub hotkeys_enabled: bool,
    pub hotkeys_registered: bool,
    pub fullscreen_hotkey: String,
    pub region_hotkey: String,
    pub event: Option<TrayEvent>,
}

/// The tooltip of the tray icon.
pub open spec fn tooltip_text(enabled: bool, registered: bool, fullscreen: Seq<char>, region: Seq<char>) -> Seq<
    char,
> {
    if !enabled {
        "CASPER Shot (hotkeys disabled)"@
    } else if !registered {
        "CASPER Shot (hotkeys unavailable)"@
    } else {
        "CASPER Shot ("@ + fullscreen + ", "@ + region + ")"@
    }
}

/// The label of the menu item that switches the hotkeys.
pub open spec fn toggle_label(enabled: bool) -> Seq<char> {
    if enabled {
        "Disable hotkeys"@
    } else {
        "Enable hotkeys"@
    }
}

/// The items of the tray menu, in order, with their labels.
pub open spec fn menu_entries(enabled: bool) -> Seq<(TrayEvent, Seq<char>)> {
    seq![
        (TrayEvent::ToggleHotkeys, toggle_label(enabled)),
        (TrayEvent::OpenScreenshots, "Open Screenshots"@),
        (TrayEvent::OpenSettings, "Settings"@),
        (TrayEvent::Reload, "Reload"@),
        (TrayEvent::OpenGitHub, "GitHub"@),
        (TrayEvent::Quit, "Exit CASPER Shot"@),
    ]
}

impl TrayModel {
    /// A tray for the given hotkeys, switched on and taken as registered.
    pub fn new(fullscreen_hotkey: &str, region_hotkey: &str) -> (r: TrayModel)
        ensures
            r.hotkeys_enabled,
            r.hotkeys_registered,
            r.fullscreen_hotkey@ == fullscreen_hotkey@,
            r.region_hotkey@ == region_hotkey@,
            r.event is None,
    {
        TrayModel {
            hotkeys_enabled: true,
            hotkeys_registered: true,
            fullscreen_hotkey: fullscreen_hotkey.to_owned(),
            region_hotkey: region_hotkey.to_owned(),
            event: None,
        }
    }

    /// The tooltip: the hotkeys when they work, else why they do not.
    pub fn tooltip(&self) -> (r: String)
        ensures
            r@ == tooltip_text(
                self.hotkeys_enabled,
                self.hotkeys_registered,
                self.fullscreen_hotkey@,
                self.region_hotkey@,
            ),
    {
        if !self.hotkeys_enabled {
            "CASPER Shot (hotkeys disabled)".to_owned()
        } else if !self.hotkeys_registered {
            "CASPER Shot (hotkeys unavailable)".to_owned()
        } else {
            let mut out = String::new();
            push_str(&mut out, "CASPER Shot (");
            push_str(&mut out, self.fullscreen_hotkey.as_str());
            push_str(&mut out, ", ");
            push_str(&mut out, self.region_hotkey.as_str());
            push_str(&mut out, ")");
            out
        }
    }

    /// The tooltip in UTF-16, cut to `TOOLTIP_CAPACITY` units.
    pub fn tooltip_units(&self) -> (r: Vec<u16>)
        ensures
            ({
                let u = utf16(
                    tooltip_text(
                        self.hotkeys_enabled,
                        self.hotkeys_registered,
                        self.fullscreen_hotkey@,
                        self.region_hotkey@,
                    ),
                );
                r@ == if u.len() > TOOLTIP_CAPACITY {
                    u.take(TOOLTIP_CAPACITY as int)
                } else {
                    u
                }
            }),
    {
        let tip = self.tooltip();
        let all = utf16_units(tip.as_str());
        let n = if all.len() > TOOLTIP_CAPACITY {
            TOOLTIP_CAPACITY
        } else {
            all.len()
        };
        let mut r: Vec<u16> = Vec::new();
        let mut k: usize = 0;
        while k < n
            invariant
                n <= all@.len(),
                k <= n,
                r@ == all@.take(k as int),
            decreases n - k,
        {
            r.push(all[k]);
            assert(r@ =~= all@.take(k + 1));
            k = k + 1;
        }
        assert(all@.take(all@.len() as int) =~= all@);
        r
    }

    /// The items of the tray menu with their labels.
    pub fn menu_items(&self) -> (r: Vec<(TrayEvent, String)>)
        ensures
            r@.len() == 6,
            forall|i: int|
                0 <= i < 6 ==> (#[trigger] r@[i]).0 == menu_entries(self.hotkeys_enabled)[i].0 && r@[i].1@
                    == menu_entries(self.hotkeys_enabled)[i].1,
    {
        let toggle = if self.hotkeys_enabled {
            "Disable hotkeys"
        } else {
            "Enable hotkeys"
        };
        let mut r: Vec<(TrayEvent, String)> = Vec::new();
        r.push((TrayEvent::ToggleHotkeys, toggle.to_owned()));
        r.push((TrayEvent::OpenScreenshots, "Open Screenshots".to_owned()));
        r.push((TrayEvent::OpenSettings, "Settings".to_owned()));
        r.push((TrayEvent::Reload, "Reload".to_owned()));
        r.push((TrayEvent::OpenGitHub, "GitHub".to_owned()));
        r.push((TrayEvent::Quit, "Exit CASPER Shot".to_owned()));
        r
    }

    /// An item was chosen in the menu: switching the hotkeys takes effect
    /// here, and the item waits to be handled. Returns whether the tooltip
    /// changed.
    pub fn select(&mut self, event: TrayEvent) -> (tooltip_changed: bool)
        ensures
            final(self).event == Some(event),
            final(self).hotkeys_enabled == if event == TrayEvent::ToggleHotkeys {
                !old(self).hotkeys_enabled
            } else {
                old(self).hotkeys_enabled
            },
            tooltip_changed == (event == TrayEvent::ToggleHotkeys),
            final(self).hotkeys_registered == old(self).hotkeys_registered,
            final(self).fullscreen_hotkey == old(self).fullscreen_hotkey,
            final(self).region_hotkey == old(self).region_hotkey,
    {
        let toggled = match event {
            TrayEvent::ToggleHotkeys => true,
            _ => false,
        };
        if toggled {
            self.hotkeys_enabled = !self.hotkeys_enabled;
        }
        self.event = Some(event);
        toggled
    }

    /// The item chosen last, which is then taken as handled.
    pub fn take_event(&mut self) -> (r: Option<TrayEvent>)
        ensures
            r == old(self).event,
            final(self).event is None,
            final(self).hotkeys_enabled == old(self).hotkeys_enabled,
            final(self).hotkeys_registered == old(self).hotkeys_registered,
            final(self).fullscreen_hotkey == old(self).fullscreen_hotkey,
            final(self).region_hotkey == old(self).region_hotkey,
    {
        let r = self.event;
        self.event = None;
        r
    }

    /// New hotkeys, and whether the system accepted them.
    pub fn set_hotkeys(&mut self, fullscreen: &str, region: &str, registered: bool)
        ensures
            final(self).fullscreen_hotkey@ == fullscreen@,
            final(self).region_hotkey@ == region@,
            final(self).hotkeys_registered == registered,
            final(self).hotkeys_enabled == old(self).hotkeys_enabled,
            final(self).event == old(self).event,
    {
        self.fullscreen_hotkey = fullscreen.to_owned();
        self.region_hotkey = region.to_owned();
        self.hotkeys_registered = registered;
    }
}

/// What the program does for a menu item, given whether the hotkeys are
/// switched on (after the item took effect).
#[derive(Clone, Copy, PartialEq, Eq, Structural, Debug)]
pub enum TrayCommand {
    /// Register the hotkeys again (and show whether that worked).
    RegisterHotkeys,
    /// Let go of the hotkeys.
    UnregisterHotkeys,
    OpenScreenshots,
    OpenSettings,
    OpenGitHub,
    /// Read the settings again, then register their hotkeys.
    ReloadAndRegister,
    /// Read the settings again and show their hotkeys as not registered.
    ReloadUnregistered,
    Quit,
}

/// The command for a menu item.
pub open spec fn command_for(event: TrayEvent, hotkeys_enabled: bool) -> TrayCommand {
    match event {
        TrayEvent::ToggleHotkeys => if hotkeys_enabled {
            TrayCommand::RegisterHotkeys
        } else {
            TrayCommand::UnregisterHotkeys
        },
        TrayEvent::OpenScreenshots => TrayCommand::OpenScreenshots,
        TrayEvent::OpenSettings => TrayCommand::OpenSettings,
        TrayEvent::Reload => if hotkeys_enabled {
            TrayCommand::ReloadAndRegister
        } else {
            TrayCommand::ReloadUnregistered
        },
        TrayEvent::OpenGitHub => TrayCommand::OpenGitHub,
        TrayEvent::Quit => TrayCommand::Quit,
    }
}

/// The command for a menu item, given whether the hotkeys are switched on.
pub fn tray_command(event: TrayEvent, hotkeys_enabled: bool) -> (r: TrayCommand)
    ensures
        r == command_for(event, hotkeys_enabled),
{
    match event {
        TrayEvent::ToggleHotkeys => if hotkeys_enabled {
            TrayCommand::RegisterHotkeys
        } else {
            TrayCommand::UnregisterHotkeys
        },
        TrayEvent::OpenScreenshots => TrayCommand::OpenScreenshots,
        TrayEvent::OpenSettings => TrayCommand::OpenSettings,
        TrayEvent::Reload => if hotkeys_enabled {
            TrayCommand::ReloadAndRegister
        } else {
            TrayCommand::ReloadUnregistered
        },
        TrayEvent::OpenGitHub => TrayCommand::OpenGitHub,
        TrayEvent::Quit => TrayCommand::Quit,
    }
}

/// The hotkeys follow their switch: the command for the toggle item
/// registers them exactly when they are switched on once it took effect and
/// lets go of them exactly when switched off, so the two states never give
/// the same command; choosing the item labelled "Disable hotkeys" lets go
/// of them and "Enable hotkeys" registers them; and no other item registers
/// them while they are switched off, nor lets go of them.
pub proof fn lemma_commands_follow_switch(event: TrayEvent, enabled: bool)
    ensures
        command_for(TrayEvent::ToggleHotkeys, enabled) == TrayCommand::RegisterHotkeys <==> enabled,
        command_for(TrayEvent::ToggleHotkeys, enabled) == TrayCommand::UnregisterHotkeys <==> !enabled,
        command_for(TrayEvent::ToggleHotkeys, enabled) != command_for(TrayEvent::ToggleHotkeys, !enabled),
        toggle_label(enabled) == "Disable hotkeys"@ ==> command_for(TrayEvent::ToggleHotkeys, !enabled)
            == TrayCommand::UnregisterHotkeys,
        toggle_label(enabled) == "Enable hotkeys"@ ==> command_for(TrayEvent::ToggleHotkeys, !enabled)
            == TrayCommand::RegisterHotkeys,
        command_for(event, enabled) == TrayCommand::RegisterHotkeys || command_for(event, enabled)
            == TrayCommand::ReloadAndRegister ==> enabled,
        event == TrayEvent::Reload ==> (command_for(event, enabled) == TrayCommand::ReloadAndRegister
            <==> enabled),
        command_for(event, enabled) == TrayCommand::UnregisterHotkeys ==> event == TrayEvent::ToggleHotkeys,
{
    reveal_strlit("Disable hotkeys");
    reveal_strlit("Enable hotkeys");
    assert("Disable hotkeys"@[0] != "Enable hotkeys"@[0]);
}

} // verus!
