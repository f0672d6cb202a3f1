//! Setting up the GPU resources of the demo scene through a rendering context.
use vstd::prelude::*;

verus! {

pub type Shader = u32;

pub type ShaderProgram = u32;

pub type Texture = u32;

pub type ShaderInputLocation = i32;

pub type VertexAttributeLocation = u32;

/// Where the vertex positions are bound.
pub const A_POSITION: VertexAttributeLocation = 0;

/// Where the vertex normals are bound.
pub const A_NORMALS: VertexAttributeLocation = 1;

/// Where the texture coordinates are bound.
pub const A_TEX_COORDS: VertexAttributeLocation = 2;

#[derive(Clone, Copy, PartialEq, Eq, Structural, Debug)]
pub enum ShaderType {
    Vertex,
    Fragment,
}

#[derive(Clone, Copy, PartialEq, Eq, Structural, Debug)]
pub enum TextureFormat {
    R8G8B8A8,
}

/// How a texture is sampled.
#[derive(Clone, Copy, PartialEq, Eq, Structural, Debug)]
pub struct TextureFlags {
    pub repeat: bool,
    pub filter_nearest: bool,
}

/// A graphics back end, as the demo uses it.
pub trait RenderingContext {
    fn create_shader(&mut self, shader_type: ShaderType) -> Shader;

    fn compile_shader(&mut self, shader: Shader, src: &str) -> Result<(), String>;

    fn create_shader_program(&mut self) -> ShaderProgram;

    fn link_shader_program(
        &mut self,
        program: ShaderProgram,
        vertex_shader: Shader,
        fragment_shader: Shader,
        attributes: &[(&str, VertexAttributeLocation)],
    ) -> Result<(), String>;

    fn destroy_shader(&mut self, shader: Shader);

    fn get_shader_input_location(
        &mut self,
        program: ShaderProgram,
        name: &str,
    ) -> ShaderInputLocation;

    fn create_texture(&mut self, flags: TextureFlags) -> Texture;

    fn upload_texture_data(
        &mut self,
        texture: Texture,
        data: &[u8],
        width: u32,
        height: u32,
        format: TextureFormat,
    );
}

/// Locations of the uniforms that the demo's shaders read.
#[derive(Clone, Copy, PartialEq, Eq, Structural, Debug)]
pub struct UniformLayout {
    pub u_resolution: ShaderInputLocation,
    pub u_color: ShaderInputLocation,
    pub u_texture_0: ShaderInputLocation,
    pub u_texture_1: ShaderInputLocation,
    pub u_texture_2: ShaderInputLocation,
    pub u_texture_3: ShaderInputLocation,
    pub u_model_mat: ShaderInputLocation,
    pub u_view_mat: ShaderInputLocation,
    pub u_proj_mat: ShaderInputLocation,
}

impl UniformLayout {
    /// Looks up each uniform of program `p`.
    pub fn new<C: RenderingContext>(ctx: &mut C, p: ShaderProgram) -> (r: UniformLayout) {
        let u_color = ctx.get_shader_input_location(p, "u_color");
        let u_texture_0 = ctx.get_shader_input_location(p, "u_texture_0");
        let u_texture_1 = ctx.get_shader_input_location(p, "u_texture_1");
        let u_texture_2 = ctx.get_shader_input_location(p, "u_texture_2");
        let u_texture_3 = ctx.get_shader_input_location(p, "u_texture_3");
        let u_model_mat = ctx.get_shader_input_location(p, "u_model_mat");
        let u_view_mat = ctx.get_shader_input_location(p, "u_view_mat");
        let u_proj_mat = ctx.get_shader_input_location(p, "u_proj_mat");
        let u_resolution = ctx.get_shader_input_location(p, "u_resolution");
        UniformLayout {
            u_resolution,
            u_color,
            u_texture_0,
            u_texture_1,
            u_texture_2,
            u_texture_3,
            u_model_mat,
            u_view_mat,
            u_proj_mat,
        }
    }
}

/// Which step of building a shader program failed, with the back end's message.
#[derive(Clone, PartialEq, Eq, Debug)]
pub enum ShaderError {
    VertexShader(String),
    FragmentShader(String),
    Link(String),
}

/// Compiles and links a program from two sources and looks up its uniforms.
///
/// Stops at the first step that fails; the intermediate shaders are destroyed
/// once the program is linked.
pub fn setup_shader<C: RenderingContext>(ctx: &mut C, vs_src: &str, fs_src: &str) -> (r: Result<
    (ShaderProgram, UniformLayout),
    ShaderError,
>) {
    let vs = ctx.create_shader(ShaderType::Vertex);
    let fs = ctx.create_shader(ShaderType::Fragment);
    let program = ctx.create_shader_program();
    match ctx.compile_shader(vs, vs_src) {
        Ok(()) => {},
        Err(e) => {
            return Err(ShaderError::VertexShader(e));
        },
    }
    match ctx.compile_shader(fs, fs_src) {
        Ok(()) => {},
        Err(e) => {
            return Err(ShaderError::FragmentShader(e));
        },
    }
    let attributes = [
        ("a_position", A_POSITION),
        ("a_normals", A_NORMALS),
        ("a_tex_coords", A_TEX_COORDS),
    ];
    match ctx.link_shader_program(program, vs, fs, &attributes) {
        Ok(()) => {},
        Err(e) => {
            return Err(ShaderError::Link(e));
        },
    }
    let uniforms = UniformLayout::new(ctx, program);
    ctx.destroy_shader(vs);
    ctx.destroy_shader(fs);
    Ok((program, uniforms))
}

/// Byte `i` of the checker pattern of height `h`, four bytes per texel.
pub open spec fn checker_byte(i: int, h: int) -> u8 {
    if (i / 4 + i / (4 * h)) % 2 == 1 {
        255
    } else {
        0
    }
}

/// The bytes of a `w` by `h` checker texture, four per texel.
pub fn checker_data(w: usize, h: usize) -> (r: Vec<u8>)
    requires
        w * h * 4 <= usize::MAX,
    ensures
        r@.len() == w * h * 4,
        forall|i: int| 0 <= i < r@.len() ==> #[trigger] r@[i] == checker_byte(i, h as int),
{
    let n = w * h * 4;
    let mut data: Vec<u8> = Vec::new();
    let mut i: usize = 0;
    while i < n
        invariant
            n == w * h * 4,
            w * h * 4 <= usize::MAX,
            0 <= i <= n,
            data@.len() == i,
            forall|k: int| 0 <= k < i ==> #[trigger] data@[k] == checker_byte(k, h as int),
        decreases n - i,
    {
        proof {
            assert(1 <= h && 4 * h <= w * h * 4) by (nonlinear_arith)
                requires
                    i < w * h * 4,
            ;
        }
        let texel = i / 4;
        let row = i / (4 * h);
        proof {
            let ii = i as int;
            let d = 4 * h as int;
            assert(ii / d <= ii / 4) by (nonlinear_arith)
                requires
                    ii >= 0,
                    d >= 4,
            ;
        }
        let parity = (texel + row) % 2;
        data.push(if parity == 1 {
            255
        } else {
            0
        });
        i += 1;
    }
    data
}

/// Creates a repeating checker texture of `w` by `h` texels and uploads its data.
pub fn create_checker_texture<C: RenderingContext>(w: usize, h: usize, ctx: &mut C) -> (r: Texture)
    requires
        w * h * 4 <= usize::MAX,
        w <= u32::MAX,
        h <= u32::MAX,
{
    let checker_data = checker_data(w, h);
    let checker = ctx.create_texture(TextureFlags { repeat: true, filter_nearest: true });
    ctx.upload_texture_data(
        checker,
        checker_data.as_slice(),
        w as u32,
        h as u32,
        TextureFormat::R8G8B8A8,
    );
    checker
}

} // verus!
