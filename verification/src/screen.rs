//! A screen manager whose modes form one state machine,
//! `Browse <-> Entered <-> FullScreen`, beside a mode for the terminal. The
//! profiles and the pane trees are those of [`crate::window`].

use vstd::prelude::*;
use crate::error::LayoutError;
use crate::geometry::Rect;
use crate::window::layout::{lemma_flatten_one_focused, lemma_flatten_tiles, one_focused, tiles, PaneModel};
use crate::window::navigation::Heading;
use crate::window::pane::{
    large_screen,
    small_screen,
    Pane,
    PaneFlattened,
    PaneManager,
    PaneView,
};
use crate::window::profiles::ProfileTable;

verus! {

/// Name of the built-in profile for small terminals.
pub const SMALL_SCREEN_STR: &'static str = "Defualt Small Screen";

/// Name of the built-in profile for large terminals.
pub const LARGE_SCREEN_STR: &'static str = "Defualt Large Screen";

/// How the terminal pane takes its input.
#[derive(Debug, Clone, Copy, PartialEq, Eq, Structural)]
pub enum TerminalMode {
    Normal,
    Insert,
}

/// Where the input goes: to the navigation between panes (`Browse`), to the
/// focused pane (`Entered`), or to the focused pane drawn over the whole
/// screen (`FullScreen`).
#[derive(Debug, Clone, Copy, PartialEq, Eq, Structural)]
pub enum FocusMode {
    Entered,
    Browse,
    FullScreen,
}

/// What a screen manager is, seen from outside.
pub struct ScreenModel {
    pub profiles: Map<Seq<char>, PaneModel>,
    pub active: Seq<char>,
    pub use_default_profile: bool,
    pub terminal_mode: TerminalMode,
    pub focus_mode: FocusMode,
}

impl ScreenModel {
    /// The invariants of a screen manager: the two built-in profiles are
    /// registered, the active name is that of a registered profile, and every
    /// profile is a well-formed pane manager.
    pub open spec fn well_formed(self) -> bool {
        &&& self.profiles.dom().contains(SMALL_SCREEN_STR@)
        &&& self.profiles.dom().contains(LARGE_SCREEN_STR@)
        &&& self.profiles.dom().contains(self.active)
        &&& forall|name: Seq<char>| #[trigger]
            self.profiles.dom().contains(name) ==> self.profiles[name].well_formed()
    }

    /// The active profile.
    pub open spec fn current(self) -> PaneModel {
        self.profiles[self.active]
    }

    /// The screen with `manager` as its active profile.
    pub open spec fn with_current(self, manager: PaneModel) -> ScreenModel {
        ScreenModel { profiles: self.profiles.insert(self.active, manager), ..self }
    }

    /// The screen with the profile `name` active.
    pub open spec fn activate(self, name: Seq<char>) -> ScreenModel {
        ScreenModel { active: name, ..self }
    }

    /// The screen in the focus mode `mode`.
    pub open spec fn in_mode(self, mode: FocusMode) -> ScreenModel {
        ScreenModel { focus_mode: mode, ..self }
    }

    /// The focus mode after the full-screen mode was switched: `FullScreen`
    /// and `Entered` give way to each other, and `Browse` stays.
    pub open spec fn toggled_mode(self) -> FocusMode {
        match self.focus_mode {
            FocusMode::FullScreen => FocusMode::Entered,
            FocusMode::Entered => FocusMode::FullScreen,
            FocusMode::Browse => FocusMode::Browse,
        }
    }

    /// What is drawn into `area`. In full-screen mode that is the focused
    /// pane of the active profile alone, over the whole area; otherwise the
    /// flattened layout of the active profile.
    pub open spec fn flattened(self, area: Rect) -> Seq<PaneFlattened> {
        if self.focus_mode == FocusMode::FullScreen {
            seq![
                PaneFlattened {
                    view: self.current().focused_pane().view,
                    id: self.current().focused_pane().id,
                    focused: true,
                    rect: area,
                },
            ]
        } else {
            self.current().flattened(area)
        }
    }
}

/// The screen that a new screen manager shows: the two built-in profiles,
/// the small one active, the focused pane entered, the terminal in normal
/// mode.
pub open spec fn initial_screen() -> ScreenModel {
    ScreenModel {
        profiles: Map::<Seq<char>, PaneModel>::empty().insert(
            SMALL_SCREEN_STR@,
            small_screen(),
        ).insert(LARGE_SCREEN_STR@, large_screen()),
        active: SMALL_SCREEN_STR@,
        use_default_profile: true,
        terminal_mode: TerminalMode::Normal,
        focus_mode: FocusMode::Entered,
    }
}

/// The two built-in profiles have different names.
pub proof fn lemma_builtin_names_differ()
    ensures
        SMALL_SCREEN_STR@ != LARGE_SCREEN_STR@,
{
    reveal_strlit("Defualt Small Screen");
    reveal_strlit("Defualt Large Screen");
    assert(SMALL_SCREEN_STR@[8] == 'S');
    assert(LARGE_SCREEN_STR@[8] == 'L');
}

/// Outside the browse mode, switching the full-screen mode twice gives back
/// the screen from before, and with it what is drawn.
pub proof fn lemma_toggle_twice(screen: ScreenModel, area: Rect)
    requires
        screen.focus_mode != FocusMode::Browse,
    ensures
        screen.in_mode(screen.toggled_mode()).in_mode(
            screen.in_mode(screen.toggled_mode()).toggled_mode(),
        ) == screen,
        screen.in_mode(screen.toggled_mode()).in_mode(
            screen.in_mode(screen.toggled_mode()).toggled_mode(),
        ).flattened(area) == screen.flattened(area),
{
}

/// Whatever the mode, exactly one entry of what is drawn is marked as
/// focused, and what is drawn tiles the area.
pub proof fn lemma_screen_flattened(screen: ScreenModel, area: Rect)
    requires
        screen.well_formed(),
        area.fits(),
    ensures
        one_focused(screen.flattened(area)),
        tiles(screen.flattened(area), area),
{
    let entries = screen.flattened(area);
    if screen.focus_mode == FocusMode::FullScreen {
        assert(entries[0].focused);
        assert forall|px: int, py: int| #[trigger] area.covers(px, py) implies exists|i: int|
            0 <= i < entries.len() && #[trigger] entries[i].rect.covers(px, py) by {
            assert(entries[0].rect.covers(px, py));
        }
    } else {
        assert(screen.profiles.dom().contains(screen.active));
        lemma_flatten_tiles(screen.current().layout, area, screen.current().focused);
        lemma_flatten_one_focused(screen.current().layout, area, screen.current().focused);
    }
}

/// Named pane managers with one of them active, and the modes of the focus
/// and of the terminal.
pub struct ScreenManager {
    panes: ProfileTable,
    current_pane: String,
    use_default_pane: bool,
    terminal_mode: TerminalMode,
    focus_mode: FocusMode,
}

impl View for ScreenManager {
    type V = ScreenModel;

    closed spec fn view(&self) -> ScreenModel {
        ScreenModel {
            profiles: self.panes@,
            active: self.current_pane@,
            use_default_profile: self.use_default_pane,
            terminal_mode: self.terminal_mode,
            focus_mode: self.focus_mode,
        }
    }
}

impl ScreenManager {
    /// The table of profiles is in order.
    pub closed spec fn tabled(&self) -> bool {
        self.panes.wf()
    }

    /// The screen manager is in order.
    pub open spec fn wf(&self) -> bool {
        self.tabled() && self@.well_formed()
    }

    /// A screen manager with the two built-in profiles, the small one active.
    pub fn new() -> (made: Result<ScreenManager, LayoutError>)
        ensures
            made matches Ok(screen) && screen.wf() && screen@ == initial_screen(),
    {
        let small = match PaneManager::default_small_screen() {
            Ok(m) => m,
            Err(e) => {
                return Err(e);
            },
        };
        let large = match PaneManager::default_large_screen() {
            Ok(m) => m,
            Err(e) => {
                return Err(e);
            },
        };
        let mut panes = ProfileTable::new();
        panes.insert(SMALL_SCREEN_STR, small);
        panes.insert(LARGE_SCREEN_STR, large);
        let screen = ScreenManager {
            panes,
            current_pane: SMALL_SCREEN_STR.to_owned(),
            use_default_pane: true,
            terminal_mode: TerminalMode::Normal,
            focus_mode: FocusMode::Entered,
        };
        proof {
            assert forall|name: Seq<char>| #[trigger]
                screen@.profiles.dom().contains(name) implies screen@.profiles[name].well_formed() by {
                screen.panes.lemma_entries_wf(name);
            }
        }
        Ok(screen)
    }

    /// The focus mode.
    pub fn focus_mode(&self) -> (mode: FocusMode)
        ensures
            mode == self@.focus_mode,
    {
        self.focus_mode
    }

    /// The mode of the terminal.
    pub fn terminal_mode(&self) -> (mode: TerminalMode)
        ensures
            mode == self@.terminal_mode,
    {
        self.terminal_mode
    }

    /// Whether the default profile for the size of the terminal is to be
    /// used.
    pub fn uses_default_pane(&self) -> (on: bool)
        ensures
            on == self@.use_default_profile,
    {
        self.use_default_pane
    }

    /// The name of the active profile.
    pub fn current_pane_name(&self) -> (name: &str)
        ensures
            name@ == self@.active,
    {
        self.current_pane.as_str()
    }

    /// The focused pane of the active profile, for changing what it
    /// displays. The screen manager stays in order as long as the pane keeps
    /// its identifier.
    pub fn get_focused_pane(&mut self) -> (found: Result<&mut Pane, LayoutError>)
        requires
            old(self).wf(),
        ensures
            match found {
                Ok(pane) => {
                    &&& *pane == old(self)@.current().focused_pane()
                    &&& pane.id == old(self)@.current().focused
                    &&& final(self)@ == old(self)@.with_current(
                        old(self)@.current().with_focused_pane(*final(pane)),
                    )
                    &&& (final(pane).id == pane.id ==> final(self).wf())
                },
                Err(_) => false,
            },
    {
        match self.get_current_pane_mut() {
            Ok(manager) => manager.get_focused_pane_mut(),
            Err(e) => Err(e),
        }
    }

    /// The view that the focused pane of the active profile displays.
    pub fn get_focused_view(&mut self) -> (found: Result<PaneView, LayoutError>)
        requires
            old(self).wf(),
        ensures
            found == Ok::<PaneView, LayoutError>(old(self)@.current().focused_pane().view),
            *final(self) == *old(self),
    {
        match self.get_current_pane() {
            Ok(manager) => manager.get_focused_view(),
            Err(e) => Err(e),
        }
    }

    /// The names of the registered profiles, each once.
    pub fn get_available_panes(&self) -> (names: Vec<String>)
        requires
            self.wf(),
        ensures
            forall|name: Seq<char>|
                self@.profiles.dom().contains(name) <==> exists|i: int|
                    0 <= i < names@.len() && (#[trigger] names@[i])@ == name,
            forall|i: int, j: int|
                0 <= i < j < names@.len() ==> (#[trigger] names@[i])@ != (#[trigger] names@[j])@,
    {
        let names = self.panes.names();
        proof {
            self.panes.lemma_order();
            let order = self.panes.order();
            assert forall|name: Seq<char>|
                self@.profiles.dom().contains(name) <==> exists|i: int|
                    0 <= i < names@.len() && (#[trigger] names@[i])@ == name by {
                if self@.profiles.dom().contains(name) {
                    assert(self.panes@.dom().contains(name));
                    assert(order.contains(name));
                    let p = choose|p: int| 0 <= p < order.len() && order[p] == name;
                    assert(names@[p]@ == name);
                }
                if exists|i: int| 0 <= i < names@.len() && (#[trigger] names@[i])@ == name {
                    let p = choose|p: int| 0 <= p < names@.len() && (#[trigger] names@[p])@ == name;
                    assert(order[p] == name);
                    assert(order.contains(name));
                    assert(self.panes@.dom().contains(name));
                }
            }
            assert forall|i: int, j: int| 0 <= i < j < names@.len() implies (#[trigger] names@[i])@
                != (#[trigger] names@[j])@ by {
                assert(order[i] != order[j]);
            }
        }
        names
    }

    /// Says whether the default profile for the size of the terminal is to
    /// be used.
    pub fn use_default_pane(&mut self, use_default_pane: bool)
        ensures
            final(self)@ == (ScreenModel { use_default_profile: use_default_pane, ..old(self)@ }),
            old(self).wf() ==> final(self).wf(),
    {
        self.use_default_pane = use_default_pane;
    }

    /// Registers `manager` as the profile `name`, in place of the profile
    /// that had that name, if there was one.
    pub fn add_pane_manager(&mut self, name: &str, manager: PaneManager)
        requires
            old(self).wf(),
            manager.wf(),
        ensures
            final(self).wf(),
            final(self)@ == (ScreenModel {
                profiles: old(self)@.profiles.insert(name@, manager@),
                ..old(self)@
            }),
    {
        self.panes.insert(name, manager);
    }

    /// Switches between the entered and the full-screen mode. Refused in the
    /// browse mode, where it changes nothing.
    pub fn toggle_full_screen(&mut self) -> (done: Result<(), LayoutError>)
        ensures
            old(self).wf() ==> final(self).wf(),
            final(self)@ == old(self)@.in_mode(old(self)@.toggled_mode()),
            match done {
                Ok(_) => old(self)@.focus_mode != FocusMode::Browse,
                Err(e) => old(self)@.focus_mode == FocusMode::Browse && e
                    == LayoutError::InvalidState,
            },
    {
        if self.focus_mode == FocusMode::FullScreen {
            self.focus_mode = FocusMode::Entered;
            Ok(())
        } else if self.focus_mode == FocusMode::Entered {
            self.focus_mode = FocusMode::FullScreen;
            Ok(())
        } else {
            Err(LayoutError::InvalidState)
        }
    }

    /// Hands the input to the focused pane.
    pub fn enter_pane(&mut self)
        ensures
            final(self)@ == old(self)@.in_mode(FocusMode::Entered),
            old(self).wf() ==> final(self).wf(),
    {
        self.focus_mode = FocusMode::Entered;
    }

    /// Hands the input to the navigation between panes.
    pub fn browse_pane(&mut self)
        ensures
            final(self)@ == old(self)@.in_mode(FocusMode::Browse),
            old(self).wf() ==> final(self).wf(),
    {
        self.focus_mode = FocusMode::Browse;
    }

    /// The active profile.
    pub fn get_current_pane(&self) -> (found: Result<&PaneManager, LayoutError>)
        requires
            self.wf(),
        ensures
            found matches Ok(manager) && manager@ == self@.current() && manager.wf(),
    {
        match self.panes.get(self.current_pane.as_str()) {
            Some(manager) => Ok(manager),
            None => Err(LayoutError::NotFound),
        }
    }

    /// The active profile, for changing it. The screen manager stays in
    /// order as long as the profile does.
    pub fn get_current_pane_mut(&mut self) -> (found: Result<&mut PaneManager, LayoutError>)
        requires
            old(self).wf(),
        ensures
            match found {
                Ok(manager) => {
                    &&& manager@ == old(self)@.current()
                    &&& manager.wf()
                    &&& final(self)@ == old(self)@.with_current(final(manager)@)
                    &&& (final(manager).wf() ==> final(self).wf())
                },
                Err(_) => false,
            },
    {
        match self.panes.get_mut(self.current_pane.as_str()) {
            Some(manager) => Ok(manager),
            None => Err(LayoutError::NotFound),
        }
    }

    /// Makes the focused pane of the active profile display the terminal,
    /// puts the terminal into `terminal_mode`, and hands the input to that
    /// pane.
    pub fn enter_terminal(&mut self, terminal_mode: TerminalMode) -> (done: Result<
        (),
        LayoutError,
    >)
        requires
            old(self).wf(),
        ensures
            done is Ok,
            final(self).wf(),
            final(self)@ == (ScreenModel {
                terminal_mode,
                focus_mode: FocusMode::Entered,
                ..old(self)@.with_current(old(self)@.current().goto(PaneView::Terminal))
            }),
    {
        match self.get_current_pane_mut() {
            Ok(manager) => {
                let _ = manager.force_goto(PaneView::Terminal);
            },
            Err(e) => {
                return Err(e);
            },
        }
        self.terminal_mode = terminal_mode;
        self.focus_mode = FocusMode::Entered;
        Ok(())
    }

    /// Makes the profile `name` the active one. Refused when no profile has
    /// that name.
    pub fn set_pane(&mut self, name: &str) -> (done: Result<(), LayoutError>)
        requires
            old(self).wf(),
        ensures
            final(self).wf(),
            match done {
                Ok(_) => {
                    &&& old(self)@.profiles.dom().contains(name@)
                    &&& final(self)@ == old(self)@.activate(name@)
                },
                Err(e) => {
                    &&& !old(self)@.profiles.dom().contains(name@)
                    &&& e == LayoutError::NotFound
                    &&& final(self)@ == old(self)@
                },
            },
    {
        if self.panes.contains(name) {
            self.current_pane = name.to_owned();
            Ok(())
        } else {
            Err(LayoutError::NotFound)
        }
    }

    /// Makes the built-in profile for large terminals the active one.
    pub fn set_large_screen(&mut self)
        requires
            old(self).wf(),
        ensures
            final(self).wf(),
            final(self)@ == old(self)@.activate(LARGE_SCREEN_STR@),
    {
        self.current_pane = LARGE_SCREEN_STR.to_owned();
    }

    /// Makes the built-in profile for small terminals the active one.
    pub fn set_small_screen(&mut self)
        requires
            old(self).wf(),
        ensures
            final(self).wf(),
            final(self)@ == old(self)@.activate(SMALL_SCREEN_STR@),
    {
        self.current_pane = SMALL_SCREEN_STR.to_owned();
    }

    /// Moves the focus of the active profile in the direction `heading`.
    fn steer(&mut self, heading: Heading) -> (done: Result<(), LayoutError>)
        requires
            old(self).wf(),
        ensures
            done is Ok,
            final(self).wf(),
            final(self)@ == old(self)@.with_current(old(self)@.current().steer(heading)),
    {
        match self.get_current_pane_mut() {
            Ok(manager) => manager.steer(heading),
            Err(e) => Err(e),
        }
    }

    /// Moves the focus of the active profile to the nearest pane above.
    pub fn focus_up(&mut self) -> (done: Result<(), LayoutError>)
        requires
            old(self).wf(),
        ensures
            done is Ok,
            final(self).wf(),
            final(self)@ == old(self)@.with_current(old(self)@.current().steer(Heading::Up)),
    {
        self.steer(Heading::Up)
    }

    /// Moves the focus of the active profile to the nearest pane below.
    pub fn focus_down(&mut self) -> (done: Result<(), LayoutError>)
        requires
            old(self).wf(),
        ensures
            done is Ok,
            final(self).wf(),
            final(self)@ == old(self)@.with_current(old(self)@.current().steer(Heading::Down)),
    {
        self.steer(Heading::Down)
    }

    /// Moves the focus of the active profile to the nearest pane on the
    /// left.
    pub fn focus_left(&mut self) -> (done: Result<(), LayoutError>)
        requires
            old(self).wf(),
        ensures
            done is Ok,
            final(self).wf(),
            final(self)@ == old(self)@.with_current(old(self)@.current().steer(Heading::Left)),
    {
        self.steer(Heading::Left)
    }

    /// Moves the focus of the active profile to the nearest pane on the
    /// right.
    pub fn focus_right(&mut self) -> (done: Result<(), LayoutError>)
        requires
            old(self).wf(),
        ensures
            done is Ok,
            final(self).wf(),
            final(self)@ == old(self)@.with_current(old(self)@.current().steer(Heading::Right)),
    {
        self.steer(Heading::Right)
    }

    /// What to draw into `app`: in full-screen mode the focused pane of the
    /// active profile alone, over the whole area; otherwise the flattened
    /// layout of the active profile. Exactly one entry is marked as focused,
    /// and the entries tile the area.
    pub fn get_flattened_layout(&self, app: Rect) -> (flat: Result<Vec<PaneFlattened>, LayoutError>)
        requires
            self.wf(),
            app.fits(),
        ensures
            flat matches Ok(entries) && entries@ == self@.flattened(app) && one_focused(entries@)
                && tiles(entries@, app),
    {
        proof {
            lemma_screen_flattened(self@, app);
        }
        if self.focus_mode == FocusMode::FullScreen {
            let manager = match self.get_current_pane() {
                Ok(manager) => manager,
                Err(e) => {
                    return Err(e);
                },
            };
            let pane = match manager.get_focused_pane() {
                Ok(pane) => pane,
                Err(e) => {
                    return Err(e);
                },
            };
            let mut entries: Vec<PaneFlattened> = Vec::new();
            entries.push(
                PaneFlattened { view: pane.get_current_view(), id: pane.id, focused: true, rect: app },
            );
            proof {
                assert(entries@ =~= self@.flattened(app));
            }
            Ok(entries)
        } else {
            match self.get_current_pane() {
                Ok(manager) => manager.get_flattened_layout(app),
                Err(e) => Err(e),
            }
        }
    }
}

} // verus!
