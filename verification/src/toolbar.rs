use vstd::prelude::*;

verus! {

/// The tools of the toolbar.
#[derive(Clone, Copy, PartialEq, Eq, Structural, Debug)]
pub enum Tool {
    Edit,
    Brush,
    Layers,
}

/// The tools in the order the toolbar shows them.
pub fn tools() -> (list: [Tool; 3])
    ensures
        list@ == seq![Tool::Edit, Tool::Brush, Tool::Layers],
{
    let list = [Tool::Edit, Tool::Brush, Tool::Layers];
    assert(list@ =~= seq![Tool::Edit, Tool::Brush, Tool::Layers]);
    list
}

impl Tool {
    /// The resource path of the tool's icon, an SVG file; every tool has the same one.
    pub fn icon(self) -> (path: &'static str)
        ensures
            path@ == "res/icons/ico_boring.svg"@,
    {
        match self {
            Tool::Edit | Tool::Brush | Tool::Layers => "res/icons/ico_boring.svg",
        }
    }
}

/// What the toolbar keeps between frames: the tool that is on, if any, and whether the
/// layers panel is open.
pub struct Toolbar {
    pub active: Option<Tool>,
    pub layers: bool,
}

impl Toolbar {
    /// A toolbar with no tool on and the layers panel closed.
    pub fn new() -> (toolbar: Self)
        ensures
            toolbar.active is None,
            !toolbar.layers,
    {
        Toolbar { active: None, layers: false }
    }

    /// Whether the button of `tool` shows as selected, given the brush `mode` of the
    /// editor: the layers button while the panel is open, the brush button while the
    /// editor's mode is the brush, and the edit button while editing is on.
    pub fn selected(&self, tool: Tool, mode: Option<Tool>) -> (on: bool)
        ensures
            on == match tool {
                Tool::Layers => self.layers,
                Tool::Brush => mode == Some(Tool::Brush),
                Tool::Edit => self.active == Some(Tool::Edit),
            },
    {
        match tool {
            Tool::Layers => self.layers,
            Tool::Brush => match mode {
                Some(Tool::Brush) => true,
                _ => false,
            },
            Tool::Edit => match self.active {
                Some(Tool::Edit) => true,
                _ => false,
            },
        }
    }

    /// A click on the button of `tool`: the layers button opens or closes the panel, the
    /// brush button turns editing on and is handed back for the editor to toggle its
    /// brush, and the edit button turns editing on or off.
    pub fn click(&mut self, tool: Tool, mode: Option<Tool>) -> (toggled: Option<Tool>)
        ensures
            match tool {
                Tool::Layers => final(self).layers == !old(self).layers && final(self).active == old(self).active
                    && toggled is None,
                Tool::Brush => final(self).active == Some(Tool::Edit) && final(self).layers == old(self).layers
                    && toggled == Some(Tool::Brush),
                Tool::Edit => final(self).active == (if old(self).active == Some(Tool::Edit) { None } else { Some(Tool::Edit) })
                    && final(self).layers == old(self).layers && toggled is None,
            },
    {
        let selected = self.selected(tool, mode);
        match tool {
            Tool::Layers => {
                self.layers = !selected;
                None
            },
            Tool::Brush => {
                self.active = Some(Tool::Edit);
                Some(Tool::Brush)
            },
            Tool::Edit => {
                self.active = if selected { None } else { Some(Tool::Edit) };
                None
            },
        }
    }
}

} // verus!
